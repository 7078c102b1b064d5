//! Bit sequences: the model that the packing functions and the codec are
//! stated over, with the facts that relate its parts.
//!
//! A bit sequence is a `Seq<bool>`, first bit first. A number is written most
//! significant bit first.

use vstd::arithmetic::div_mod::*;
use vstd::arithmetic::power2::*;
use vstd::prelude::*;

verus! {

/// Whether `width` is a usable number of bits for one chunk.
pub open spec fn valid_width(width: nat) -> bool {
    1 <= width <= 8
}

/// The low `width` bits of `value`, most significant first.
pub open spec fn low_bits(value: nat, width: nat) -> Seq<bool>
    decreases width,
{
    if width == 0 {
        Seq::empty()
    } else {
        low_bits(value / 2, (width - 1) as nat).push(value % 2 == 1)
    }
}

/// The number that `bits` spell, most significant first.
pub open spec fn bits_value(bits: Seq<bool>) -> nat
    decreases bits.len(),
{
    if bits.len() == 0 {
        0
    } else {
        2 * bits_value(bits.drop_last()) + (if bits.last() {
            1nat
        } else {
            0nat
        })
    }
}

/// `count` zero bits.
pub open spec fn zero_bits(count: nat) -> Seq<bool> {
    Seq::new(count, |i: int| false)
}

/// The bits carried by `elems`, where each element gives its low `width`
/// bits, most significant first, and the elements follow one another.
pub open spec fn stream(elems: Seq<u8>, width: nat) -> Seq<bool>
    decreases elems.len(),
{
    if elems.len() == 0 {
        Seq::empty()
    } else {
        stream(elems.drop_last(), width) + low_bits(elems.last() as nat, width)
    }
}

/// The number spelled by a group of at most `width` bits once zero bits have
/// been added at its end to make it `width` long.
pub open spec fn group_value(group: Seq<bool>, width: nat) -> nat {
    bits_value(group + zero_bits((width - group.len()) as nat))
}

/// `bits` cut into consecutive groups of `width` bits, each read as a number.
/// A last group that is short is filled with zero bits at its end. Empty
/// where `width` is 0.
pub open spec fn regroup(bits: Seq<bool>, width: nat) -> Seq<u8>
    decreases bits.len(),
{
    if bits.len() == 0 || width == 0 {
        Seq::empty()
    } else if bits.len() < width {
        seq![group_value(bits, width) as u8]
    } else {
        seq![bits_value(bits.take(width as int)) as u8] + regroup(bits.skip(width as int), width)
    }
}

/// Each bit as a byte that is 0 or 1.
pub open spec fn bit_bytes(bits: Seq<bool>) -> Seq<u8> {
    Seq::new(
        bits.len(),
        |i: int|
            if bits[i] {
                1u8
            } else {
                0u8
            },
    )
}

/// The least number of groups of `size` that hold `amount`.
pub open spec fn ceil_div(amount: nat, size: nat) -> nat {
    ((amount + size - 1) / (size as int)) as nat
}

/// Rounding a division up adds 1 to the quotient where there is a remainder.
pub proof fn lemma_ceil_div(amount: nat, size: nat)
    requires
        size > 0,
    ensures
        ceil_div(amount, size) == amount / size + (if amount % size > 0 {
            1nat
        } else {
            0nat
        }),
        amount <= ceil_div(amount, size) * size < amount + size,
{
    let n = amount as int;
    let d = size as int;
    let q = n / d;
    let r = n % d;
    lemma_fundamental_div_mod(n, d);
    lemma_mod_bound(n, d);
    lemma_div_pos_is_pos(n, d);
    assert(d * q == q * d) by (nonlinear_arith);
    assert((q + 1) * d == q * d + d) by (nonlinear_arith);
    if r == 0 {
        lemma_fundamental_div_mod_converse(n + d - 1, d, q, d - 1);
    } else {
        lemma_fundamental_div_mod_converse(n + d - 1, d, q + 1, r - 1);
    }
}

/// The rounded-up quotient is the one number of groups that holds the
/// amount with less than a group to spare.
pub proof fn lemma_ceil_div_is(amount: nat, size: nat, groups: nat)
    requires
        size > 0,
        amount <= groups * size < amount + size,
    ensures
        ceil_div(amount, size) == groups,
{
    lemma_ceil_div(amount, size);
    let c = ceil_div(amount, size) as int;
    let g = groups as int;
    let d = size as int;
    assert(c == g) by (nonlinear_arith)
        requires
            d > 0,
            amount <= g * d < amount + d,
            amount <= c * d < amount + d,
    ;
}

pub proof fn lemma_low_bits_len(value: nat, width: nat)
    ensures
        low_bits(value, width).len() == width,
    decreases width,
{
    if width > 0 {
        lemma_low_bits_len(value / 2, (width - 1) as nat);
    }
}

/// A number spelled by `n` bits is below 2^n.
pub proof fn lemma_bits_value_bound(bits: Seq<bool>)
    ensures
        bits_value(bits) < pow2(bits.len()),
    decreases bits.len(),
{
    if bits.len() == 0 {
        lemma2_to64();
    } else {
        lemma_bits_value_bound(bits.drop_last());
        lemma_pow2_unfold(bits.len());
    }
}

/// Writing a number out in as many bits as spelled it gives the bits back.
pub proof fn lemma_low_bits_of_value(bits: Seq<bool>)
    ensures
        low_bits(bits_value(bits), bits.len()) == bits,
    decreases bits.len(),
{
    if bits.len() > 0 {
        lemma_low_bits_of_value(bits.drop_last());
        assert(bits.drop_last().push(bits.last()) =~= bits);
    }
}

/// The low `width` bits of a number spell its remainder modulo 2^width.
pub proof fn lemma_value_of_low_bits(value: nat, width: nat)
    ensures
        bits_value(low_bits(value, width)) == value % pow2(width),
    decreases width,
{
    if width == 0 {
        lemma2_to64();
    } else {
        let rest = low_bits(value / 2, (width - 1) as nat);
        lemma_value_of_low_bits(value / 2, (width - 1) as nat);
        assert(low_bits(value, width).drop_last() =~= rest);
        lemma_pow2_unfold(width);
        lemma_pow2_pos((width - 1) as nat);
        lemma_mod_breakdown(value as int, 2, pow2((width - 1) as nat) as int);
    }
}

/// Bit `j` of the low `width` bits of a number, counted from the most
/// significant of them.
pub proof fn lemma_low_bits_index(value: nat, width: nat, j: int)
    requires
        0 <= j < width,
    ensures
        low_bits(value, width).len() == width,
        low_bits(value, width)[j] == ((value / pow2((width - 1 - j) as nat)) % 2 == 1),
    decreases width,
{
    lemma_low_bits_len(value, width);
    lemma_low_bits_len(value / 2, (width - 1) as nat);
    if j == width - 1 {
        lemma2_to64();
        assert(value / pow2(0) == value);
    } else {
        let shift = (width - 2 - j) as nat;
        let half = value / 2;
        lemma_low_bits_index(half, (width - 1) as nat, j);
        assert(low_bits(value, width)[j] == low_bits(half, (width - 1) as nat)[j]);
        lemma_pow2_unfold(shift + 1);
        lemma_pow2_pos(shift);
        lemma_div_denominator(value as int, 2, pow2(shift) as int);
        assert(half / pow2(shift) == value / pow2(shift + 1));
    }
}

/// Zero bits spell 0.
pub proof fn lemma_zero_bits_value(count: nat)
    ensures
        bits_value(zero_bits(count)) == 0,
    decreases count,
{
    if count > 0 {
        lemma_zero_bits_value((count - 1) as nat);
        assert(zero_bits(count).drop_last() =~= zero_bits((count - 1) as nat));
    }
}

/// The number spelled by two bit sequences one after the other.
pub proof fn lemma_bits_value_concat(front: Seq<bool>, back: Seq<bool>)
    ensures
        bits_value(front + back) == bits_value(front) * pow2(back.len()) + bits_value(back),
    decreases back.len(),
{
    if back.len() == 0 {
        lemma2_to64();
        assert(front + back =~= front);
    } else {
        let shorter = back.drop_last();
        lemma_bits_value_concat(front, shorter);
        assert((front + back).drop_last() =~= front + shorter);
        lemma_pow2_unfold(back.len());
        let f = bits_value(front) as int;
        let p = pow2(shorter.len()) as int;
        assert(2 * (f * p) == f * (2 * p)) by (nonlinear_arith);
    }
}

/// A group that is already `width` long is read as it stands.
pub proof fn lemma_group_value_full(group: Seq<bool>, width: nat)
    requires
        group.len() == width,
    ensures
        group_value(group, width) == bits_value(group),
{
    assert(group + zero_bits(0) =~= group);
}

/// Filling a group up with zero bits multiplies its number by a power of two.
pub proof fn lemma_group_value_shift(group: Seq<bool>, width: nat)
    requires
        group.len() <= width,
    ensures
        group_value(group, width) == bits_value(group) * pow2((width - group.len()) as nat),
        group_value(group, width) < pow2(width),
{
    let fill = (width - group.len()) as nat;
    lemma_bits_value_concat(group, zero_bits(fill));
    lemma_zero_bits_value(fill);
    lemma_bits_value_bound(group + zero_bits(fill));
}

/// Adding one element adds its bits at the end of the stream.
pub proof fn lemma_stream_push(elems: Seq<u8>, elem: u8, width: nat)
    ensures
        stream(elems.push(elem), width) == stream(elems, width) + low_bits(elem as nat, width),
{
    assert(elems.push(elem).drop_last() =~= elems);
}

/// The stream of two sequences one after the other.
pub proof fn lemma_stream_concat(front: Seq<u8>, back: Seq<u8>, width: nat)
    ensures
        stream(front + back, width) == stream(front, width) + stream(back, width),
    decreases back.len(),
{
    if back.len() == 0 {
        assert(front + back =~= front);
        assert(stream(front, width) + Seq::<bool>::empty() =~= stream(front, width));
    } else {
        lemma_stream_concat(front, back.drop_last(), width);
        assert((front + back).drop_last() =~= front + back.drop_last());
        assert(stream(front + back, width) =~= stream(front, width) + stream(back, width));
    }
}

/// Every element gives `width` bits.
pub proof fn lemma_stream_len(elems: Seq<u8>, width: nat)
    ensures
        stream(elems, width).len() == elems.len() * width,
    decreases elems.len(),
{
    if elems.len() > 0 {
        lemma_stream_len(elems.drop_last(), width);
        lemma_low_bits_len(elems.last() as nat, width);
        let n = elems.len() as int;
        let w = width as int;
        assert((n - 1) * w + w == n * w) by (nonlinear_arith);
    } else {
        assert(0 * width == 0) by (nonlinear_arith);
    }
}

/// The stream of a part of the elements is the matching part of the stream.
pub proof fn lemma_stream_subrange(elems: Seq<u8>, from: int, to: int, width: nat)
    requires
        0 <= from <= to <= elems.len(),
    ensures
        from * width <= to * width <= stream(elems, width).len(),
        stream(elems.subrange(from, to), width) == stream(elems, width).subrange(
            from * width,
            to * width,
        ),
{
    let head = elems.subrange(0, from);
    let part = elems.subrange(from, to);
    let tail = elems.subrange(to, elems.len() as int);
    assert(elems =~= head + part + tail);
    lemma_stream_concat(head + part, tail, width);
    lemma_stream_concat(head, part, width);
    lemma_stream_len(head, width);
    lemma_stream_len(part, width);
    lemma_stream_len(tail, width);
    lemma_stream_len(elems, width);
    let w = width as int;
    assert(from * w + (to - from) * w == to * w) by (nonlinear_arith);
    assert(to * w + (elems.len() - to) * w == elems.len() * w) by (nonlinear_arith);
    assert(stream(part, width) =~= stream(elems, width).subrange(from * width, to * width));
}

/// One more group after whole groups gives one more number.
pub proof fn lemma_regroup_append(done: Seq<bool>, group: Seq<bool>, width: nat, count: nat)
    requires
        width > 0,
        done.len() == count * width,
        0 < group.len() <= width,
    ensures
        regroup(done + group, width) == regroup(done, width).push(
            group_value(group, width) as u8,
        ),
    decreases count,
{
    let all = done + group;
    if count == 0 {
        assert(0 * width == 0) by (nonlinear_arith);
        assert(all =~= group);
        assert(regroup(done, width) =~= Seq::<u8>::empty());
        if group.len() == width {
            lemma_group_value_full(group, width);
            assert(group.take(width as int) =~= group);
            assert(regroup(group.skip(width as int), width) =~= Seq::<u8>::empty());
        }
        assert(regroup(all, width) =~= regroup(done, width).push(group_value(group, width) as u8));
    } else {
        let c = count as int;
        let w = width as int;
        assert((c - 1) * w + w == c * w) by (nonlinear_arith);
        assert((c - 1) * w >= 0) by (nonlinear_arith)
            requires
                c >= 1,
                w >= 1,
        ;
        let rest = done.skip(w);
        lemma_regroup_append(rest, group, width, (count - 1) as nat);
        assert(all.take(w) =~= done.take(w));
        assert(all.skip(w) =~= rest + group);
        assert(regroup(all, width) =~= regroup(done, width).push(group_value(group, width) as u8));
    }
}

/// The number of groups is the bit count divided by `width`, rounded up.
pub proof fn lemma_regroup_len(bits: Seq<bool>, width: nat)
    requires
        width > 0,
    ensures
        regroup(bits, width).len() == ceil_div(bits.len(), width),
        bits.len() <= regroup(bits, width).len() * width < bits.len() + width,
    decreases bits.len(),
{
    let n = bits.len() as int;
    let w = width as int;
    if n == 0 {
        lemma_basic_div(w - 1, w);
        assert(0 * w == 0) by (nonlinear_arith);
    } else if n < w {
        lemma_fundamental_div_mod_converse(n + w - 1, w, 1, n - 1);
        assert(1 * w == w) by (nonlinear_arith);
    } else {
        let rest = bits.skip(w);
        lemma_regroup_len(rest, width);
        let q = regroup(rest, width).len() as int;
        lemma_fundamental_div_mod(n - w + w - 1, w);
        let r = (n - 1) % w;
        lemma_mod_bound(n - 1, w);
        assert((q + 1) * w == q * w + w) by (nonlinear_arith);
        assert(w * q == q * w) by (nonlinear_arith);
        lemma_fundamental_div_mod_converse(n + w - 1, w, q + 1, r);
    }
}

/// Every number that regrouping gives fits in `width` bits.
pub proof fn lemma_regroup_bound(bits: Seq<bool>, width: nat, k: int)
    requires
        valid_width(width),
        0 <= k < regroup(bits, width).len(),
    ensures
        regroup(bits, width)[k] < pow2(width),
    decreases bits.len(),
{
    lemma2_to64();
    if bits.len() < width {
        lemma_group_value_shift(bits, width);
    } else {
        lemma_bits_value_bound(bits.take(width as int));
        if k > 0 {
            lemma_regroup_bound(bits.skip(width as int), width, k - 1);
        }
    }
}

/// The stream of the regrouped bits is the bits again, followed by fewer than
/// `width` zero bits.
pub proof fn lemma_stream_regroup(bits: Seq<bool>, width: nat)
    requires
        valid_width(width),
    ensures
        stream(regroup(bits, width), width).len() == regroup(bits, width).len() * width,
        bits.len() <= stream(regroup(bits, width), width).len() < bits.len() + width,
        stream(regroup(bits, width), width) == bits + zero_bits(
            (stream(regroup(bits, width), width).len() - bits.len()) as nat,
        ),
    decreases bits.len(),
{
    let out = stream(regroup(bits, width), width);
    lemma_stream_len(regroup(bits, width), width);
    lemma_regroup_len(bits, width);
    lemma2_to64();
    if bits.len() == 0 {
        assert(out =~= bits + zero_bits(0));
    } else if bits.len() < width {
        let filled = bits + zero_bits((width - bits.len()) as nat);
        lemma_group_value_shift(bits, width);
        lemma_low_bits_of_value(filled);
        let number = group_value(bits, width) as u8;
        assert(regroup(bits, width) =~= Seq::<u8>::empty().push(number));
        lemma_stream_push(Seq::<u8>::empty(), number, width);
        assert(out =~= filled);
    } else {
        let first = bits.take(width as int);
        let rest = bits.skip(width as int);
        let number = bits_value(first) as u8;
        lemma_bits_value_bound(first);
        lemma_low_bits_of_value(first);
        lemma_stream_regroup(rest, width);
        lemma_stream_concat(seq![number], regroup(rest, width), width);
        assert(seq![number] =~= Seq::<u8>::empty().push(number));
        lemma_stream_push(Seq::<u8>::empty(), number, width);
        assert(stream(seq![number], width) =~= first);
        let fill = (stream(regroup(rest, width), width).len() - rest.len()) as nat;
        assert(out =~= bits + zero_bits(fill));
    }
}

/// Bytes cut from their own stream in groups of 8 are the bytes.
pub proof fn lemma_regroup_stream_bytes(bytes: Seq<u8>)
    ensures
        regroup(stream(bytes, 8), 8) == bytes,
    decreases bytes.len(),
{
    if bytes.len() == 0 {
        assert(regroup(stream(bytes, 8), 8) =~= bytes);
    } else {
        let front = bytes.drop_last();
        let last = bytes.last();
        let tail = low_bits(last as nat, 8);
        lemma_regroup_stream_bytes(front);
        lemma_stream_len(front, 8);
        lemma_low_bits_len(last as nat, 8);
        lemma_regroup_append(stream(front, 8), tail, 8, front.len());
        lemma_group_value_full(tail, 8);
        lemma_value_of_low_bits(last as nat, 8);
        lemma2_to64();
        assert(front.push(last) =~= bytes);
    }
}

/// Cutting bits into groups of one gives each bit as a byte.
pub proof fn lemma_regroup_single(bits: Seq<bool>)
    ensures
        regroup(bits, 1) == bit_bytes(bits),
    decreases bits.len(),
{
    if bits.len() == 0 {
        assert(regroup(bits, 1) =~= bit_bytes(bits));
    } else {
        let first = bits.take(1);
        let rest = bits.skip(1);
        lemma_regroup_single(rest);
        assert(first.drop_last() =~= Seq::<bool>::empty());
        assert(bits_value(first.drop_last()) == 0);
        assert(first.last() == bits[0]);
        assert(regroup(bits, 1) =~= bit_bytes(bits));
    }
}

/// The stream of bits held one to a byte is the bits.
pub proof fn lemma_stream_bit_bytes(bits: Seq<bool>)
    ensures
        stream(bit_bytes(bits), 1) == bits,
{
    lemma_regroup_single(bits);
    lemma_stream_regroup(bits, 1);
    assert(bits + zero_bits(0) =~= bits);
}

/// The first groups of the regrouped bits come from the first bits alone.
pub proof fn lemma_regroup_take(bits: Seq<bool>, width: nat, count: nat)
    requires
        width > 0,
        count * width <= bits.len(),
    ensures
        count <= regroup(bits, width).len(),
        regroup(bits, width).take(count as int) == regroup(
            bits.take((count * width) as int),
            width,
        ),
    decreases count,
{
    let c = count as int;
    let w = width as int;
    lemma_regroup_len(bits, width);
    assert(c <= regroup(bits, width).len()) by (nonlinear_arith)
        requires
            c * w <= bits.len(),
            regroup(bits, width).len() * w >= bits.len(),
            w > 0,
            c >= 0,
    ;
    if count == 0 {
        assert(0 * w == 0) by (nonlinear_arith);
        assert(regroup(bits, width).take(0) =~= regroup(bits.take(0), width));
    } else {
        assert((c - 1) * w + w == c * w) by (nonlinear_arith);
        assert((c - 1) * w >= 0) by (nonlinear_arith)
            requires
                c >= 1,
                w >= 1,
        ;
        let rest = bits.skip(w);
        let head = bits.take(c * w);
        lemma_regroup_take(rest, width, (count - 1) as nat);
        assert(head.take(w) =~= bits.take(w));
        assert(head.skip(w) =~= rest.take((c - 1) * w));
        assert(regroup(bits, width).take(c) =~= regroup(head, width));
    }
}

} // verus!
