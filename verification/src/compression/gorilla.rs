//! XOR codec for sequences of 64-bit patterns, such as the bits of
//! floating-point readings.
//!
//! The first value is stored whole. Every later value is stored as one block:
//! a single zero bit where it equals the value before it, else a one bit, the
//! number of leading zero bits of the XOR of the two in six bits, the length
//! of its significant bits less one in six bits, and the significant bits.
//! The bits are packed into bytes, the last byte padded with zero bits.
//!
//! A zero bit of padding reads like the block of a repeated value, so
//! decoding gives the encoded values followed by one copy of the last value
//! for every bit of padding.

use crate::compression::bits::{
    bits_of, lemma_unpack_pack, lemma_value_of_bits_of, lemma_value_of_bound, pack, padding,
    unpack, value_of, BitReader, BitWriter,
};
use vstd::prelude::*;
use vstd::std_specs::bits::{
    axiom_u64_leading_zeros, axiom_u64_trailing_zeros, u64_leading_zeros, u64_trailing_zeros,
};

verus! {

// ---------------------------------------------------------------------------
// The encoded form
// ---------------------------------------------------------------------------

/// The number of bits from the highest to the lowest set bit of `x`.
pub open spec fn significant_len(x: u64) -> int {
    64 - u64_leading_zeros(x) - u64_trailing_zeros(x)
}

/// The significant bits of `x`: `x` without its trailing zero bits.
pub open spec fn significant_bits(x: u64) -> u64 {
    x >> (u64_trailing_zeros(x) as u64)
}

/// The block that stores `cur` behind `prev`.
pub open spec fn block(prev: u64, cur: u64) -> Seq<bool> {
    let x = prev ^ cur;
    if x == 0 {
        seq![false]
    } else {
        seq![true] + bits_of(u64_leading_zeros(x) as u64, 6) + bits_of(
            (significant_len(x) - 1) as u64,
            6,
        ) + bits_of(significant_bits(x), significant_len(x) as nat)
    }
}

/// The bits that store `values`, before they are packed.
pub open spec fn encoded_bits(values: Seq<u64>) -> Seq<bool>
    decreases values.len(),
{
    if values.len() == 0 {
        Seq::empty()
    } else if values.len() == 1 {
        bits_of(values[0], 64)
    } else {
        encoded_bits(values.drop_last()) + block(
            values[values.len() - 2],
            values[values.len() - 1],
        )
    }
}

/// The encoded form of a sequence of values.
pub open spec fn encoded_values(values: Seq<u64>) -> Seq<u8> {
    pack(encoded_bits(values))
}

/// The values that the blocks from bit `pos` on stand for, behind the value
/// `prev`. A block that the bits do not hold in full, or whose significant
/// bits would not fit into 64 bits, ends the values.
pub open spec fn decoded_blocks(bits: Seq<bool>, pos: int, prev: u64) -> Seq<u64>
    decreases bits.len() - pos,
{
    if pos < 0 || pos >= bits.len() {
        Seq::empty()
    } else if !bits[pos] {
        seq![prev] + decoded_blocks(bits, pos + 1, prev)
    } else if bits.len() - pos < 13 {
        Seq::empty()
    } else {
        let lz = value_of(bits.subrange(pos + 1, pos + 7));
        let len = value_of(bits.subrange(pos + 7, pos + 13)) + 1;
        if lz + len > 64 || bits.len() - (pos + 13) < len {
            Seq::empty()
        } else {
            let sig = value_of(bits.subrange(pos + 13, pos + 13 + len));
            let cur = prev ^ (sig << ((64 - lz - len) as u64));
            seq![cur] + decoded_blocks(bits, pos + 13 + len, cur)
        }
    }
}

/// The values that a bit sequence stands for: none where it holds fewer than
/// 64 bits.
pub open spec fn decoded_bits(bits: Seq<bool>) -> Seq<u64> {
    if bits.len() < 64 {
        Seq::empty()
    } else {
        let first = value_of(bits.subrange(0, 64));
        seq![first] + decoded_blocks(bits, 64, first)
    }
}

/// The values that a byte sequence stands for.
pub open spec fn decoded_values(data: Seq<u8>) -> Seq<u64> {
    decoded_bits(unpack(data))
}

/// The highest and the lowest set bit of a non-zero value lie within its 64
/// bits, the significant bits fit into their length, and shifting them back
/// gives the value.
pub proof fn lemma_significant(x: u64)
    requires
        x != 0,
    ensures
        0 <= u64_leading_zeros(x) <= 63,
        0 <= u64_trailing_zeros(x) <= 63,
        1 <= significant_len(x) <= 64,
        significant_len(x) == 64 || significant_bits(x) >> (significant_len(x) as u64) == 0,
        significant_bits(x) << (u64_trailing_zeros(x) as u64) == x,
{
    axiom_u64_leading_zeros(x);
    axiom_u64_trailing_zeros(x);
    let l = u64_leading_zeros(x) as u64;
    let t = u64_trailing_zeros(x) as u64;
    assert(l + t < 64 && ((64 - l - t) as u64 == 64 || (x >> t) >> ((64 - l - t) as u64) == 0)
        && (x >> t) << t == x) by (bit_vector)
        requires
            x != 0,
            l < 64,
            t < 64,
            (x >> ((63 - l) as u64)) & 1 != 0,
            (x >> t) & 1 == 1,
            x >> ((64 - l) as u64) == 0,
            x << ((64 - t) as u64) == 0,
    ;
}

// ---------------------------------------------------------------------------
// Encoding and decoding
// ---------------------------------------------------------------------------

/// Encodes a sequence of values.
pub fn encode(values: &[u64]) -> (out: Vec<u8>)
    ensures
        out@ == encoded_values(values@),
{
    if values.len() == 0 {
        proof {
            assert(pack(Seq::<bool>::empty()) =~= Seq::<u8>::empty());
        }
        return Vec::new();
    }
    let mut w = BitWriter::new();
    w.write_bits(values[0], 64);
    let mut prev = values[0];
    let mut i: usize = 1;
    proof {
        assert(w@ =~= encoded_bits(values@.take(1)));
    }
    while i < values.len()
        invariant
            1 <= i <= values.len(),
            w.wf(),
            w@ == encoded_bits(values@.take(i as int)),
            prev == values[i - 1],
        decreases values.len() - i,
    {
        let cur = values[i];
        let x = prev ^ cur;
        let ghost before = w@;
        if x == 0 {
            w.push_bit(0);
            proof {
                assert(w@ =~= before + block(prev, cur));
            }
        } else {
            proof {
                lemma_significant(x);
            }
            let lz = x.leading_zeros() as u64;
            let tz = x.trailing_zeros() as u64;
            let siglen = 64 - lz - tz;
            w.push_bit(1);
            w.write_bits(lz, 6);
            w.write_bits(siglen - 1, 6);
            w.write_bits(x >> tz, siglen as usize);
            proof {
                assert(w@ =~= before + block(prev, cur));
            }
        }
        proof {
            let longer = values@.take(i + 1);
            assert(longer.drop_last() =~= values@.take(i as int));
            assert(longer[longer.len() - 2] == prev && longer[longer.len() - 1] == cur);
        }
        prev = cur;
        i += 1;
    }
    proof {
        assert(values@.take(values.len() as int) =~= values@);
    }
    w.finish()
}

/// Decodes as many values as the bytes hold: none from fewer than eight
/// bytes, and none for a block that is cut short or malformed, nor for what
/// follows it.
pub fn decode(data: &[u8]) -> (out: Vec<u64>)
    requires
        data@.len() * 8 <= usize::MAX,
    ensures
        out@ == decoded_values(data@),
{
    let mut r = BitReader::new(data);
    let ghost bits = unpack(data@);
    let first = match r.read_bits(64) {
        Some(v) => v,
        None => {
            return Vec::new();
        },
    };
    let mut out: Vec<u64> = Vec::new();
    out.push(first);
    let mut prev = first;
    proof {
        assert(out@ + decoded_blocks(bits, 64, first) =~= decoded_bits(bits));
    }
    while r.remaining_bits() > 0
        invariant
            r.wf(),
            r.bits() == bits,
            bits == unpack(data@),
            64 <= r.pos() <= bits.len(),
            out@ + decoded_blocks(bits, r.pos(), prev) == decoded_values(data@),
        decreases bits.len() - r.pos(),
    {
        let ghost pos = r.pos();
        let ghost so_far = out@;
        let flag = match r.read_bit() {
            Some(b) => b,
            None => {
                return out;
            },
        };
        if flag == 0 {
            out.push(prev);
            proof {
                assert(out@ + decoded_blocks(bits, pos + 1, prev) =~= so_far + decoded_blocks(
                    bits,
                    pos,
                    prev,
                ));
            }
        } else {
            let lz = match r.read_bits(6) {
                Some(v) => v,
                None => {
                    assert(so_far + decoded_blocks(bits, pos, prev) =~= so_far);
                    return out;
                },
            };
            let len_less_one = match r.read_bits(6) {
                Some(v) => v,
                None => {
                    assert(so_far + decoded_blocks(bits, pos, prev) =~= so_far);
                    return out;
                },
            };
            proof {
                lemma_value_of_bound(bits.subrange(pos + 1, pos + 7));
                lemma_value_of_bound(bits.subrange(pos + 7, pos + 13));
                assert(lz < 64 && len_less_one < 64) by (bit_vector)
                    requires
                        lz >> 6u64 == 0,
                        len_less_one >> 6u64 == 0,
                ;
            }
            let siglen = len_less_one + 1;
            if lz + siglen > 64 {
                assert(so_far + decoded_blocks(bits, pos, prev) =~= so_far);
                return out;
            }
            let sig = match r.read_bits(siglen as usize) {
                Some(v) => v,
                None => {
                    assert(so_far + decoded_blocks(bits, pos, prev) =~= so_far);
                    return out;
                },
            };
            let tz = 64 - lz - siglen;
            let cur = prev ^ (sig << tz);
            out.push(cur);
            proof {
                assert(out@ + decoded_blocks(bits, pos + 13 + siglen, cur) =~= so_far
                    + decoded_blocks(bits, pos, prev));
            }
            prev = cur;
        }
    }
    proof {
        assert(out@ + decoded_blocks(bits, r.pos(), prev) =~= out@);
    }
    out
}

// ---------------------------------------------------------------------------
// Lemmas
// ---------------------------------------------------------------------------

/// A value that repeats the one before it takes a single zero bit.
pub proof fn lemma_repeat_takes_one_bit(v: u64)
    ensures
        block(v, v) == seq![false],
{
    assert(v ^ v == 0) by (bit_vector);
}

/// The bits that store the first `j` values stand at the front of the bits
/// that store all of them.
proof fn lemma_encoded_bits_prefix(values: Seq<u64>, j: int)
    requires
        1 <= j <= values.len(),
    ensures
        encoded_bits(values.take(j)).len() <= encoded_bits(values).len(),
        encoded_bits(values).take(encoded_bits(values.take(j)).len() as int) == encoded_bits(
            values.take(j),
        ),
    decreases values.len() - j,
{
    let all = encoded_bits(values);
    if j == values.len() {
        assert(values.take(j) =~= values);
        assert(all.take(all.len() as int) =~= all);
    } else {
        lemma_encoded_bits_prefix(values, j + 1);
        let longer = values.take(j + 1);
        assert(longer.drop_last() =~= values.take(j));
        let shorter_bits = encoded_bits(values.take(j));
        let longer_bits = encoded_bits(longer);
        assert(longer_bits == shorter_bits + block(longer[j - 1], longer[j]));
        assert(all.take(shorter_bits.len() as int) =~= all.take(longer_bits.len() as int).take(
            shorter_bits.len() as int,
        ));
        assert(longer_bits.take(shorter_bits.len() as int) =~= shorter_bits);
    }
}

/// A block that stands at `pos` decodes to the value it stores.
proof fn lemma_block_decodes(bits: Seq<bool>, pos: int, prev: u64, cur: u64)
    requires
        0 <= pos,
        pos + block(prev, cur).len() <= bits.len(),
        bits.subrange(pos, pos + block(prev, cur).len()) == block(prev, cur),
    ensures
        decoded_blocks(bits, pos, prev) == seq![cur] + decoded_blocks(
            bits,
            pos + block(prev, cur).len(),
            cur,
        ),
{
    let x = prev ^ cur;
    let blk = block(prev, cur);
    let part = bits.subrange(pos, pos + blk.len());
    assert(bits[pos] == part[0]);
    if x == 0 {
        assert(prev == cur) by (bit_vector)
            requires
                prev ^ cur == 0,
        ;
    } else {
        lemma_significant(x);
        let lz = u64_leading_zeros(x) as u64;
        let tz = u64_trailing_zeros(x) as u64;
        let n = significant_len(x);
        let sig = significant_bits(x);
        let a = bits_of(lz, 6);
        let b = bits_of((n - 1) as u64, 6);
        let c = bits_of(sig, n as nat);
        assert(blk == seq![true] + a + b + c);
        assert(blk.len() == 13 + n);
        assert forall|i: int| 0 <= i < 6 implies bits.subrange(pos + 1, pos + 7)[i] == a[i] by {
            assert(bits[pos + 1 + i] == part[1 + i]);
        }
        assert(bits.subrange(pos + 1, pos + 7) =~= a);
        assert forall|i: int| 0 <= i < 6 implies bits.subrange(pos + 7, pos + 13)[i] == b[i] by {
            assert(bits[pos + 7 + i] == part[7 + i]);
        }
        assert(bits.subrange(pos + 7, pos + 13) =~= b);
        assert forall|i: int| 0 <= i < n implies bits.subrange(pos + 13, pos + 13 + n)[i]
            == c[i] by {
            assert(bits[pos + 13 + i] == part[13 + i]);
        }
        assert(bits.subrange(pos + 13, pos + 13 + n) =~= c);
        let m = (n - 1) as u64;
        assert(lz >> 6u64 == 0 && m >> 6u64 == 0) by (bit_vector)
            requires
                lz <= 63,
                m <= 63,
        ;
        lemma_value_of_bits_of(lz, 6);
        lemma_value_of_bits_of(m, 6);
        lemma_value_of_bits_of(sig, n as nat);
        assert((64 - lz - (m + 1)) as u64 == tz);
        assert(prev ^ (prev ^ cur) == cur) by (bit_vector);
    }
}

/// Zero bits up to the end decode to one copy of `prev` each.
proof fn lemma_zero_bits_repeat(bits: Seq<bool>, pos: int, prev: u64)
    requires
        0 <= pos <= bits.len(),
        forall|i: int| pos <= i < bits.len() ==> !bits[i],
    ensures
        decoded_blocks(bits, pos, prev) == Seq::new((bits.len() - pos) as nat, |i: int| prev),
    decreases bits.len() - pos,
{
    if pos < bits.len() {
        lemma_zero_bits_repeat(bits, pos + 1, prev);
    }
    assert(decoded_blocks(bits, pos, prev) =~= Seq::new(
        (bits.len() - pos) as nat,
        |i: int| prev,
    ));
}

/// Where `bits` are the bits that store `values` followed by zero bits only,
/// decoding behind the first `i` values gives the values that are left and
/// one copy of the last value for every zero bit at the end.
proof fn lemma_blocks_decode_from(values: Seq<u64>, bits: Seq<bool>, i: int)
    requires
        1 <= i <= values.len(),
        encoded_bits(values).len() <= bits.len(),
        bits.take(encoded_bits(values).len() as int) == encoded_bits(values),
        forall|k: int| encoded_bits(values).len() <= k < bits.len() ==> !bits[k],
    ensures
        decoded_blocks(bits, encoded_bits(values.take(i)).len() as int, values[i - 1])
            == values.skip(i) + Seq::new(
            (bits.len() - encoded_bits(values).len()) as nat,
            |k: int| values.last(),
        ),
    decreases values.len() - i,
{
    let all = encoded_bits(values);
    let tail = Seq::new((bits.len() - all.len()) as nat, |k: int| values.last());
    if i == values.len() {
        assert(values.take(i) =~= values);
        lemma_zero_bits_repeat(bits, all.len() as int, values.last());
        assert(values.skip(i) + tail =~= tail);
    } else {
        lemma_encoded_bits_prefix(values, i);
        lemma_encoded_bits_prefix(values, i + 1);
        let longer = values.take(i + 1);
        assert(longer.drop_last() =~= values.take(i));
        let here = encoded_bits(values.take(i));
        let blk = block(values[i - 1], values[i]);
        assert(encoded_bits(longer) == here + blk);
        let pos = here.len() as int;
        assert forall|k: int| 0 <= k < blk.len() implies bits.subrange(pos, pos + blk.len())[k]
            == blk[k] by {
            assert(bits[pos + k] == bits.take(all.len() as int)[pos + k]);
            assert(all[pos + k] == all.take(encoded_bits(longer).len() as int)[pos + k]);
            assert((here + blk)[pos + k] == blk[k]);
        }
        assert(bits.subrange(pos, pos + blk.len()) =~= blk);
        lemma_block_decodes(bits, pos, values[i - 1], values[i]);
        lemma_blocks_decode_from(values, bits, i + 1);
        assert(seq![values[i]] + (values.skip(i + 1) + tail) =~= values.skip(i) + tail);
    }
}

/// Where `bits` are the bits that store `values` followed by zero bits only,
/// they decode to the values and one copy of the last value for every zero
/// bit at the end.
proof fn lemma_decoded_bits_of_padded(values: Seq<u64>, bits: Seq<bool>)
    requires
        values.len() > 0,
        encoded_bits(values).len() <= bits.len(),
        bits.take(encoded_bits(values).len() as int) == encoded_bits(values),
        forall|k: int| encoded_bits(values).len() <= k < bits.len() ==> !bits[k],
    ensures
        decoded_bits(bits) == values + Seq::new(
            (bits.len() - encoded_bits(values).len()) as nat,
            |k: int| values.last(),
        ),
{
    let all = encoded_bits(values);
    let tail = Seq::new((bits.len() - all.len()) as nat, |k: int| values.last());
    lemma_encoded_bits_prefix(values, 1);
    let head = bits_of(values[0], 64);
    assert(values.take(1).len() == 1);
    assert(encoded_bits(values.take(1)) == head);
    assert(all.take(64).len() == 64);
    assert forall|k: int| 0 <= k < 64 implies bits.subrange(0, 64)[k] == head[k] by {
        assert(bits[k] == bits.take(all.len() as int)[k]);
        assert(all[k] == all.take(64)[k]);
    }
    assert(bits.subrange(0, 64) =~= head);
    lemma_value_of_bits_of(values[0], 64);
    lemma_blocks_decode_from(values, bits, 1);
    assert(seq![values[0]] + (values.skip(1) + tail) =~= values + tail);
}

/// Decoding what was encoded gives back the values, followed by one copy of
/// the last value for every bit of padding in the last byte.
pub proof fn lemma_decode_encode(values: Seq<u64>)
    ensures
        decoded_values(encoded_values(values)) == values + Seq::new(
            padding(encoded_bits(values).len()),
            |k: int| values.last(),
        ),
{
    let all = encoded_bits(values);
    let padded = all + Seq::new(padding(all.len()), |i: int| false);
    let tail = Seq::new(padding(all.len()), |k: int| values.last());
    lemma_unpack_pack(all);
    if values.len() == 0 {
        assert(padded =~= Seq::<bool>::empty());
        assert(decoded_bits(padded) =~= values + tail);
    } else {
        assert(padded.take(all.len() as int) =~= all);
        lemma_decoded_bits_of_padded(values, padded);
    }
}

/// Every value comes back with its exact bits: the values that were encoded
/// stand at the front of what decoding gives.
pub proof fn lemma_values_survive(values: Seq<u64>)
    ensures
        decoded_values(encoded_values(values)).len() >= values.len(),
        decoded_values(encoded_values(values)).take(values.len() as int) == values,
{
    lemma_decode_encode(values);
    let tail = Seq::new(padding(encoded_bits(values).len()), |k: int| values.last());
    assert((values + tail).take(values.len() as int) =~= values);
}

/// Where the encoded bits fill their last byte, decoding gives back exactly
/// the values that were encoded.
pub proof fn lemma_round_trip_without_padding(values: Seq<u64>)
    requires
        encoded_bits(values).len() % 8 == 0,
    ensures
        decoded_values(encoded_values(values)) == values,
{
    lemma_decode_encode(values);
    let tail = Seq::new(padding(encoded_bits(values).len()), |k: int| values.last());
    assert(values + tail =~= values);
}

/// A single value takes eight bytes and comes back alone.
pub proof fn lemma_round_trip_single(v: u64)
    ensures
        encoded_values(seq![v]).len() == 8,
        decoded_values(encoded_values(seq![v])) == seq![v],
{
    lemma_round_trip_without_padding(seq![v]);
}

/// No values encode to no bytes, and no bytes decode to no values.
pub proof fn lemma_round_trip_empty()
    ensures
        encoded_values(Seq::empty()) == Seq::<u8>::empty(),
        decoded_values(Seq::empty()) == Seq::<u64>::empty(),
{
    assert(encoded_values(Seq::empty()) =~= Seq::<u8>::empty());
    assert(unpack(Seq::empty()) =~= Seq::<bool>::empty());
}

/// The blocks that a front part of the bits holds decode to the first of
/// the values that the blocks of all bits decode to.
proof fn lemma_blocks_of_front(bits: Seq<bool>, n: int, pos: int, prev: u64)
    requires
        0 <= n <= bits.len(),
    ensures
        decoded_blocks(bits.take(n), pos, prev).is_prefix_of(decoded_blocks(bits, pos, prev)),
    decreases n - pos,
{
    let front = bits.take(n);
    if 0 <= pos < n {
        if !front[pos] {
            lemma_blocks_of_front(bits, n, pos + 1, prev);
            let short = decoded_blocks(front, pos + 1, prev);
            let long = decoded_blocks(bits, pos + 1, prev);
            assert(seq![prev] + short =~= (seq![prev] + long).subrange(0, short.len() as int + 1));
        } else if n - pos >= 13 {
            assert(front.subrange(pos + 1, pos + 7) =~= bits.subrange(pos + 1, pos + 7));
            assert(front.subrange(pos + 7, pos + 13) =~= bits.subrange(pos + 7, pos + 13));
            let lz = value_of(bits.subrange(pos + 1, pos + 7));
            let len = value_of(bits.subrange(pos + 7, pos + 13)) + 1;
            if !(lz + len > 64 || n - (pos + 13) < len) {
                assert(front.subrange(pos + 13, pos + 13 + len) =~= bits.subrange(
                    pos + 13,
                    pos + 13 + len,
                ));
                let sig = value_of(bits.subrange(pos + 13, pos + 13 + len));
                let cur = prev ^ (sig << ((64 - lz - len) as u64));
                lemma_blocks_of_front(bits, n, pos + 13 + len, cur);
                let short = decoded_blocks(front, pos + 13 + len, cur);
                let long = decoded_blocks(bits, pos + 13 + len, cur);
                assert(seq![cur] + short =~= (seq![cur] + long).subrange(0, short.len() as int + 1));
            }
        }
    }
}

/// Bytes that are cut off behind any place decode to the first of the values
/// that all of them decode to.
pub proof fn lemma_decode_of_front(data: Seq<u8>, cut: int)
    requires
        0 <= cut <= data.len(),
    ensures
        decoded_values(data.take(cut)).is_prefix_of(decoded_values(data)),
{
    let bits = unpack(data);
    let front = unpack(data.take(cut));
    assert(front =~= bits.take(8 * cut));
    if front.len() >= 64 {
        assert(front.subrange(0, 64) =~= bits.subrange(0, 64));
        let first = value_of(bits.subrange(0, 64));
        lemma_blocks_of_front(bits, 8 * cut, 64, first);
        let short = decoded_blocks(front, 64, first);
        let long = decoded_blocks(bits, 64, first);
        assert(seq![first] + short =~= (seq![first] + long).subrange(0, short.len() as int + 1));
    }
}

/// An encoding that is cut off behind any place never decodes to a value
/// that was not encoded: it gives the first of the values, or all of them
/// and copies of the last one for the padding.
pub proof fn lemma_truncated_values(values: Seq<u64>, cut: int)
    requires
        0 <= cut <= encoded_values(values).len(),
    ensures
        decoded_values(encoded_values(values).take(cut)).is_prefix_of(
            values + Seq::new(padding(encoded_bits(values).len()), |k: int| values.last()),
        ),
{
    lemma_decode_of_front(encoded_values(values), cut);
    lemma_decode_encode(values);
}

} // verus!
