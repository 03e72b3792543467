//! Delta-of-delta timestamp codec.
//!
//! The first timestamp is stored as eight little-endian bytes. Every later
//! timestamp contributes one variable-length integer: the zig-zag image of
//! the change of the step between neighbours, where the step before the
//! first one counts as zero. All differences are taken modulo 2^64, so every
//! sequence of timestamps can be encoded and comes back unchanged.

use vstd::bytes::{
    lemma_auto_spec_u64_to_from_le_bytes, spec_u64_from_le_bytes, spec_u64_to_le_bytes,
    u64_from_le_bytes, u64_to_le_bytes,
};
use vstd::prelude::*;
use vstd::slice::slice_subrange;
use vstd::wrapping::i64_specs::{wrapping_add, wrapping_sub};

verus! {

// ---------------------------------------------------------------------------
// Zig-zag mapping
// ---------------------------------------------------------------------------

/// Zig-zag image of a signed integer: `0, -1, 1, -2, 2, ..` go to
/// `0, 1, 2, 3, 4, ..`.
pub open spec fn zig_zag(n: i64) -> u64 {
    if n >= 0 {
        (2 * n) as u64
    } else {
        (-2 * n - 1) as u64
    }
}

/// Inverse of [`zig_zag`].
pub open spec fn zig_zag_inverse(u: u64) -> i64 {
    if u % 2 == 0 {
        (u / 2) as i64
    } else {
        (-(u / 2) - 1) as i64
    }
}

/// The zig-zag mapping is a bijection between `i64` and `u64`.
pub proof fn lemma_zig_zag_bijective(n: i64, u: u64)
    ensures
        zig_zag_inverse(zig_zag(n)) == n,
        zig_zag(zig_zag_inverse(u)) == u,
{
}

/// Maps a signed integer to an unsigned one so that values of small
/// magnitude, of either sign, get small images.
pub fn zig_zag_encode(n: i64) -> (u: u64)
    ensures
        u == zig_zag(n),
{
    let u = ((n << 1) ^ (n >> 63)) as u64;
    assert(((n << 1) ^ (n >> 63)) as u64 == if n >= 0 {
        (2 * n) as u64
    } else {
        (-2 * n - 1) as u64
    }) by (bit_vector);
    u
}

/// Recovers the signed integer from its zig-zag image.
pub fn zig_zag_decode(u: u64) -> (n: i64)
    ensures
        n == zig_zag_inverse(u),
{
    let half = (u >> 1) as i64;
    let low = (u & 1) as i64;
    assert(low == 0 || low == 1) by (bit_vector)
        requires
            low == (u & 1) as i64,
    ;
    let n = half ^ -low;
    assert(n == if u % 2 == 0 {
        (u / 2) as i64
    } else {
        (-(u / 2) - 1) as i64
    }) by (bit_vector)
        requires
            half == (u >> 1) as i64,
            low == (u & 1) as i64,
            n == half ^ ((-low) as i64),
    ;
    n
}

// ---------------------------------------------------------------------------
// Variable-length integers
// ---------------------------------------------------------------------------

/// The variable-length form of `v`: groups of seven bits, least significant
/// group first, each byte but the last with its high bit set.
pub open spec fn leb128(v: u64) -> Seq<u8>
    decreases v,
{
    if v < 0x80 {
        seq![v as u8]
    } else {
        seq![(v % 0x80 + 0x80) as u8] + leb128(v / 0x80)
    }
}

/// Reading of a variable-length integer that is under way: `acc` holds the
/// groups read so far, the group at `idx` belongs at bit `shift`. Gives the
/// value and the position behind its last byte, or `None` where the bytes end
/// inside the integer or a group would start at bit 64 or above.
pub open spec fn leb128_resume(data: Seq<u8>, idx: int, shift: u64, acc: u64) -> Option<(u64, int)>
    decreases data.len() - idx,
{
    if idx < 0 || idx >= data.len() {
        None
    } else {
        let group = (data[idx] & 0x7f) as u64;
        let acc = acc | (group << shift);
        if data[idx] & 0x80 == 0 {
            Some((acc, idx + 1))
        } else if shift + 7 >= 64 {
            None
        } else {
            leb128_resume(data, idx + 1, (shift + 7) as u64, acc)
        }
    }
}

/// The variable-length integer that starts at `idx`, with the position
/// behind it.
pub open spec fn leb128_read(data: Seq<u8>, idx: int) -> Option<(u64, int)> {
    leb128_resume(data, idx, 0, 0)
}

/// A variable-length integer has between one and ten bytes.
pub proof fn lemma_leb128_len(v: u64)
    ensures
        1 <= leb128(v).len() <= 10,
{
    lemma_leb128_len_bounded(v, 0);
}

proof fn lemma_leb128_len_bounded(v: u64, k: nat)
    requires
        k <= 9,
        k == 0 || v < pow128_bound(k),
    ensures
        1 <= leb128(v).len() <= 10 - k,
    decreases 9 - k,
{
    if v >= 0x80 {
        assert(k < 9);
        lemma_leb128_len_bounded(v / 0x80, k + 1);
    }
}

/// Upper bound of what is left of a 64-bit value after `k` groups were taken.
spec fn pow128_bound(k: nat) -> int {
    if k == 1 {
        0x200_0000_0000_0000
    } else if k == 2 {
        0x4_0000_0000_0000
    } else if k == 3 {
        0x800_0000_0000
    } else if k == 4 {
        0x10_0000_0000
    } else if k == 5 {
        0x2000_0000
    } else if k == 6 {
        0x40_0000
    } else if k == 7 {
        0x8000
    } else if k == 8 {
        0x100
    } else {
        0x2
    }
}

/// A successful read ends behind where it began.
pub proof fn lemma_leb128_resume_advances(data: Seq<u8>, idx: int, shift: u64, acc: u64)
    ensures
        leb128_resume(data, idx, shift, acc) matches Some((_, next)) ==> idx < next <= data.len(),
    decreases data.len() - idx,
{
    if 0 <= idx < data.len() && data[idx] & 0x80 != 0 && shift + 7 < 64 {
        let group = (data[idx] & 0x7f) as u64;
        lemma_leb128_resume_advances(data, idx + 1, (shift + 7) as u64, acc | (group << shift));
    }
}

/// Reading resumes correctly over the bytes of `leb128(w)`: where they stand
/// at `idx`, and `w` fits into the bits from `shift` up, the read yields
/// `acc` with `w` put in at `shift`.
proof fn lemma_leb128_resume_reads(data: Seq<u8>, idx: int, shift: u64, acc: u64, w: u64)
    requires
        0 <= idx,
        idx + leb128(w).len() <= data.len(),
        forall|i: int| 0 <= i < leb128(w).len() ==> data[idx + i] == #[trigger] leb128(w)[i],
        shift < 64,
        shift == 0 || w < (1u64 << ((64 - shift) as u64)),
    ensures
        leb128_resume(data, idx, shift, acc) == Some(
            (acc | (w << shift), idx + leb128(w).len() as int),
        ),
    decreases w,
{
    let b = data[idx];
    assert(b == leb128(w)[0]);
    if w < 0x80 {
        assert(b == w as u8);
        assert(b & 0x80 == 0 && (b & 0x7f) as u64 == w) by (bit_vector)
            requires
                w < 0x80,
                b == w as u8,
        ;
    } else {
        let rest = w / 0x80;
        assert(b == (w % 0x80 + 0x80) as u8);
        assert(b & 0x80 != 0 && (b & 0x7f) as u64 == w & 0x7f && rest == w >> 7) by (bit_vector)
            requires
                b == (w % 0x80 + 0x80) as u8,
                rest == w / 0x80,
        ;
        assert(shift + 7 < 64 && (rest < (1u64 << ((57 - shift) as u64)))) by (bit_vector)
            requires
                w >= 0x80,
                shift < 64,
                shift == 0 || w < (1u64 << ((64 - shift) as u64)),
                rest == w >> 7,
        ;
        let group = w & 0x7f;
        let acc2 = acc | (group << shift);
        let shift2 = (shift + 7) as u64;
        assert(leb128(w) =~= seq![b] + leb128(rest));
        assert forall|i: int| 0 <= i < leb128(rest).len() implies data[idx + 1 + i]
            == #[trigger] leb128(rest)[i] by {
            assert(data[idx + (i + 1)] == leb128(w)[i + 1]);
        }
        lemma_leb128_resume_reads(data, idx + 1, shift2, acc2, rest);
        assert(acc2 | (rest << shift2) == acc | (w << shift)) by (bit_vector)
            requires
                acc2 == acc | ((w & 0x7f) << shift),
                rest == w >> 7,
                shift2 == shift + 7,
                shift2 < 64,
        ;
    }
}

/// Reading what [`leb128`] wrote gives the value back, wherever the bytes
/// stand and whatever follows them.
pub proof fn lemma_leb128_round_trip(before: Seq<u8>, v: u64, after: Seq<u8>)
    ensures
        leb128_read(before + leb128(v) + after, before.len() as int) == Some(
            (v, (before.len() + leb128(v).len()) as int),
        ),
{
    let data = before + leb128(v) + after;
    let idx = before.len() as int;
    assert forall|i: int| 0 <= i < leb128(v).len() implies data[idx + i] == #[trigger] leb128(
        v,
    )[i] by {}
    lemma_leb128_resume_reads(data, idx, 0, 0, v);
    assert(0u64 | (v << 0u64) == v) by (bit_vector);
}

/// Appends the variable-length form of `v` to `out`.
pub fn write_leb_u64(v: u64, out: &mut Vec<u8>)
    ensures
        final(out)@ == old(out)@ + leb128(v),
{
    let mut rest = v;
    while rest >= 0x80
        invariant
            out@ + leb128(rest) == old(out)@ + leb128(v),
        decreases rest,
    {
        let byte = ((rest & 0x7f) as u8) | 0x80;
        assert(byte == (rest % 0x80 + 0x80) as u8 && rest >> 7 == rest / 0x80) by (bit_vector)
            requires
                byte == ((rest & 0x7f) as u8) | 0x80,
        ;
        assert(out@.push(byte) + leb128(rest / 0x80) =~= out@ + leb128(rest));
        out.push(byte);
        rest = rest >> 7;
    }
    assert(out@.push(rest as u8) =~= out@ + leb128(rest));
    out.push(rest as u8);
}

/// Reads the variable-length integer that starts at `*idx` and moves `*idx`
/// behind it. Where the bytes hold no complete integer there, returns `None`
/// and leaves `*idx` as it was.
pub fn read_leb_u64(data: &[u8], idx: &mut usize) -> (r: Option<u64>)
    ensures
        match leb128_read(data@, *old(idx) as int) {
            Some((v, next)) => r == Some(v) && *final(idx) == next,
            None => r.is_none() && *final(idx) == *old(idx),
        },
{
    let mut shift: u64 = 0;
    let mut res: u64 = 0;
    let mut i: usize = *idx;
    loop
        invariant
            shift < 64,
            leb128_resume(data@, i as int, shift, res) == leb128_read(data@, *old(idx) as int),
            *idx == *old(idx),
        decreases data.len() - i,
    {
        if i >= data.len() {
            return None;
        }
        let b = data[i];
        i += 1;
        res |= ((b & 0x7f) as u64) << shift;
        if (b & 0x80) == 0 {
            *idx = i;
            return Some(res);
        }
        shift += 7;
        if shift >= 64 {
            return None;
        }
    }
}

// ---------------------------------------------------------------------------
// The encoded form
// ---------------------------------------------------------------------------

/// The step from timestamp `i - 1` to timestamp `i`, modulo 2^64. The step
/// that leads to the first timestamp counts as zero.
pub open spec fn step(ts: Seq<i64>, i: int) -> i64 {
    if i <= 0 {
        0
    } else {
        wrapping_sub(ts[i], ts[i - 1])
    }
}

/// The integer stored for timestamp `i >= 1`: the zig-zag image of the change
/// from the step before to the step that leads to it.
pub open spec fn symbol(ts: Seq<i64>, i: int) -> u64 {
    zig_zag(wrapping_sub(step(ts, i), step(ts, i - 1)))
}

/// The integers stored for all timestamps but the first.
pub open spec fn symbols(ts: Seq<i64>) -> Seq<u64> {
    Seq::new((ts.len() - 1) as nat, |k: int| symbol(ts, k + 1))
}

/// The variable-length forms of `values`, one behind the other.
pub open spec fn leb128_all(values: Seq<u64>) -> Seq<u8>
    decreases values.len(),
{
    if values.len() == 0 {
        Seq::empty()
    } else {
        leb128_all(values.drop_last()) + leb128(values.last())
    }
}

/// The encoded form of a sequence of timestamps.
pub open spec fn encoded_timestamps(ts: Seq<i64>) -> Seq<u8> {
    if ts.len() == 0 {
        Seq::empty()
    } else {
        spec_u64_to_le_bytes(ts[0] as u64) + leb128_all(symbols(ts))
    }
}

/// The variable-length integers that can be read one behind the other from
/// `idx` on, up to the end of the bytes or the first one that is cut short
/// or too long.
pub open spec fn leb128_read_all(data: Seq<u8>, idx: int) -> Seq<u64>
    decreases data.len() - idx,
{
    match leb128_read(data, idx) {
        Some((v, next)) => if idx < next <= data.len() {
            seq![v] + leb128_read_all(data, next)
        } else {
            Seq::empty()
        },
        None => Seq::empty(),
    }
}

/// The step that leads to timestamp `k`, rebuilt from the stored integers.
pub open spec fn rebuilt_step(stored: Seq<u64>, k: int) -> i64
    decreases k,
{
    if k <= 0 {
        0
    } else {
        wrapping_add(rebuilt_step(stored, k - 1), zig_zag_inverse(stored[k - 1]))
    }
}

/// Timestamp `k`, rebuilt from the first timestamp and the stored integers.
pub open spec fn rebuilt(first: i64, stored: Seq<u64>, k: int) -> i64
    decreases k,
{
    if k <= 0 {
        first
    } else {
        wrapping_add(rebuilt(first, stored, k - 1), rebuilt_step(stored, k))
    }
}

/// The timestamps that a byte sequence stands for. Fewer than eight bytes
/// stand for none. Behind the first timestamp, every integer that can be
/// read gives one more; a malformed end is left out.
pub open spec fn decoded_timestamps(data: Seq<u8>) -> Seq<i64> {
    if data.len() < 8 {
        Seq::empty()
    } else {
        let first = spec_u64_from_le_bytes(data.subrange(0, 8)) as i64;
        let stored = leb128_read_all(data, 8);
        Seq::new(stored.len() + 1, |k: int| rebuilt(first, stored, k))
    }
}

/// Encodes timestamps: the first as eight little-endian bytes, each later one
/// as the variable-length zig-zag image of the change of step.
pub fn encode_timestamps(ts: &[i64]) -> (out: Vec<u8>)
    ensures
        out@ == encoded_timestamps(ts@),
{
    if ts.len() == 0 {
        return Vec::new();
    }
    let mut out = u64_to_le_bytes(ts[0] as u64);
    let mut prev_step: i64 = 0;
    let mut i: usize = 1;
    while i < ts.len()
        invariant
            1 <= i <= ts.len(),
            prev_step == step(ts@, i - 1),
            out@ == spec_u64_to_le_bytes(ts@[0] as u64) + leb128_all(symbols(ts@).take(i - 1)),
        decreases ts.len() - i,
    {
        let cur_step = ts[i].wrapping_sub(ts[i - 1]);
        let change = cur_step.wrapping_sub(prev_step);
        write_leb_u64(zig_zag_encode(change), &mut out);
        proof {
            let stored = symbols(ts@);
            assert(stored.take(i as int).drop_last() =~= stored.take(i - 1));
            assert(stored.take(i as int).last() == symbol(ts@, i as int));
        }
        prev_step = cur_step;
        i += 1;
    }
    proof {
        assert(symbols(ts@).take(ts.len() - 1) =~= symbols(ts@));
    }
    out
}

/// Decodes timestamps, as many as the bytes hold: none from fewer than eight
/// bytes, and none for an integer that is cut short or too long, nor for
/// what follows it.
pub fn decode_timestamps(data: &[u8]) -> (out: Vec<i64>)
    ensures
        out@ == decoded_timestamps(data@),
{
    if data.len() < 8 {
        return Vec::new();
    }
    let first = u64_from_le_bytes(slice_subrange(data, 0, 8)) as i64;
    let mut out: Vec<i64> = Vec::new();
    out.push(first);
    let mut idx: usize = 8;
    let mut prev_step: i64 = 0;
    let mut prev_ts: i64 = first;
    let ghost stored = leb128_read_all(data@, 8);
    let ghost mut n: int = 0;
    while idx < data.len()
        invariant
            8 <= idx <= data.len(),
            0 <= n <= stored.len(),
            leb128_read_all(data@, idx as int) == stored.skip(n),
            out@ == Seq::new((n + 1) as nat, |k: int| rebuilt(first, stored, k)),
            prev_ts == rebuilt(first, stored, n),
            prev_step == rebuilt_step(stored, n),
            stored == leb128_read_all(data@, 8),
            first == spec_u64_from_le_bytes(data@.subrange(0, 8)) as i64,
        decreases data.len() - idx,
    {
        let ghost before = idx as int;
        proof {
            lemma_leb128_resume_advances(data@, before, 0, 0);
        }
        match read_leb_u64(data, &mut idx) {
            None => {
                assert(stored.skip(n).len() == 0);
                return out;
            },
            Some(v) => {
                let change = zig_zag_decode(v);
                let cur_step = prev_step.wrapping_add(change);
                let t = prev_ts.wrapping_add(cur_step);
                proof {
                    assert(stored.skip(n) == seq![v] + leb128_read_all(data@, idx as int));
                    assert(stored.skip(n)[0] == v);
                    assert(stored.skip(n + 1) =~= stored.skip(n).skip(1));
                    assert(stored.skip(n).skip(1) =~= leb128_read_all(data@, idx as int));
                    n = n + 1;
                    assert(out@.push(t) =~= Seq::new(
                        (n + 1) as nat,
                        |k: int| rebuilt(first, stored, k),
                    ));
                }
                out.push(t);
                prev_step = cur_step;
                prev_ts = t;
            },
        }
    }
    proof {
        assert(stored.skip(n).len() == 0);
    }
    out
}

// ---------------------------------------------------------------------------
// Lemmas
// ---------------------------------------------------------------------------

/// The first value of a run of variable-length forms can be split off.
proof fn lemma_leb128_all_front(values: Seq<u64>)
    requires
        values.len() > 0,
    ensures
        leb128_all(values) == leb128(values[0]) + leb128_all(values.skip(1)),
    decreases values.len(),
{
    if values.len() == 1 {
        assert(values.drop_last() =~= Seq::<u64>::empty());
        assert(values.skip(1) =~= Seq::<u64>::empty());
        assert(leb128_all(values) =~= leb128(values[0]) + leb128_all(values.skip(1)));
    } else {
        lemma_leb128_all_front(values.drop_last());
        assert(values.drop_last().skip(1) =~= values.skip(1).drop_last());
        assert(values.skip(1).last() == values.last());
        assert(leb128_all(values) =~= leb128(values[0]) + leb128_all(values.skip(1)));
    }
}

/// Reading all integers from a run of variable-length forms gives the values
/// that were written, whatever stands before the run.
pub proof fn lemma_leb128_read_all_round_trip(before: Seq<u8>, values: Seq<u64>)
    ensures
        leb128_read_all(before + leb128_all(values), before.len() as int) == values,
    decreases values.len(),
{
    let data = before + leb128_all(values);
    let idx = before.len() as int;
    if values.len() == 0 {
        assert(data =~= before);
        assert(leb128_read_all(data, idx) =~= values);
    } else {
        let head = leb128(values[0]);
        let tail = values.skip(1);
        lemma_leb128_all_front(values);
        lemma_leb128_len(values[0]);
        assert(data =~= before + head + leb128_all(tail));
        lemma_leb128_round_trip(before, values[0], leb128_all(tail));
        lemma_leb128_read_all_round_trip(before + head, tail);
        assert(data =~= (before + head) + leb128_all(tail));
        assert(leb128_read_all(data, idx) =~= seq![values[0]] + tail);
        assert(seq![values[0]] + tail =~= values);
    }
}

/// Rebuilding from the stored integers of `ts` gives back each step and each
/// timestamp of `ts`.
proof fn lemma_rebuilt_gives_timestamps(ts: Seq<i64>, k: int)
    requires
        0 <= k < ts.len(),
    ensures
        rebuilt_step(symbols(ts), k) == step(ts, k),
        rebuilt(ts[0], symbols(ts), k) == ts[k],
    decreases k,
{
    if k > 0 {
        lemma_rebuilt_gives_timestamps(ts, k - 1);
        let change = wrapping_sub(step(ts, k), step(ts, k - 1));
        lemma_zig_zag_bijective(change, 0);
        assert(symbols(ts)[k - 1] == zig_zag(change));
    }
}

/// Decoding what was encoded gives back the timestamps, for every sequence
/// of timestamps.
pub proof fn lemma_timestamps_round_trip(ts: Seq<i64>)
    ensures
        decoded_timestamps(encoded_timestamps(ts)) == ts,
{
    if ts.len() == 0 {
        assert(decoded_timestamps(encoded_timestamps(ts)) =~= ts);
    } else {
        let head = spec_u64_to_le_bytes(ts[0] as u64);
        let data = encoded_timestamps(ts);
        lemma_auto_spec_u64_to_from_le_bytes();
        assert(head.len() == 8);
        assert(data.subrange(0, 8) =~= head);
        let first = ts[0];
        assert((first as u64) as i64 == first) by (bit_vector);
        lemma_leb128_read_all_round_trip(head, symbols(ts));
        assert forall|k: int| 0 <= k < ts.len() implies rebuilt(ts[0], symbols(ts), k)
            == ts[k] by {
            lemma_rebuilt_gives_timestamps(ts, k);
        }
        assert(decoded_timestamps(data) =~= ts);
    }
}

/// A single timestamp takes eight bytes and comes back alone.
pub proof fn lemma_single_timestamp_round_trip(t: i64)
    ensures
        encoded_timestamps(seq![t]).len() == 8,
        decoded_timestamps(encoded_timestamps(seq![t])) == seq![t],
{
    lemma_timestamps_round_trip(seq![t]);
    lemma_auto_spec_u64_to_from_le_bytes();
    assert(symbols(seq![t]) =~= Seq::<u64>::empty());
}

/// Nothing encodes to nothing, and nothing decodes to nothing.
pub proof fn lemma_timestamps_empty()
    ensures
        encoded_timestamps(Seq::empty()) == Seq::<u8>::empty(),
        decoded_timestamps(Seq::empty()) == Seq::<i64>::empty(),
{
}

/// An integer that can be read from a front part of the bytes reads the
/// same from all of them.
proof fn lemma_resume_of_front(data: Seq<u8>, cut: int, idx: int, shift: u64, acc: u64)
    requires
        0 <= cut <= data.len(),
        leb128_resume(data.take(cut), idx, shift, acc) is Some,
    ensures
        leb128_resume(data, idx, shift, acc) == leb128_resume(data.take(cut), idx, shift, acc),
    decreases cut - idx,
{
    let front = data.take(cut);
    assert(0 <= idx < cut);
    assert(front[idx] == data[idx]);
    if front[idx] & 0x80 != 0 && shift + 7 < 64 {
        let group = (front[idx] & 0x7f) as u64;
        lemma_resume_of_front(data, cut, idx + 1, (shift + 7) as u64, acc | (group << shift));
    }
}

/// The integers that can be read from a front part of the bytes are the
/// first of those that can be read from all of them.
proof fn lemma_read_all_of_front(data: Seq<u8>, cut: int, idx: int)
    requires
        0 <= cut <= data.len(),
    ensures
        leb128_read_all(data.take(cut), idx).is_prefix_of(leb128_read_all(data, idx)),
    decreases cut - idx,
{
    let front = data.take(cut);
    match leb128_read(front, idx) {
        Some((v, next)) => {
            lemma_resume_of_front(data, cut, idx, 0, 0);
            lemma_leb128_resume_advances(front, idx, 0, 0);
            lemma_read_all_of_front(data, cut, next);
            let short = leb128_read_all(front, next);
            let long = leb128_read_all(data, next);
            assert(seq![v] + short =~= (seq![v] + long).subrange(0, short.len() as int + 1));
        },
        None => {},
    }
}

/// Rebuilding goes by the integers that come before a timestamp, not by
/// those behind it.
proof fn lemma_rebuilt_of_front(first: i64, stored: Seq<u64>, front: Seq<u64>, k: int)
    requires
        front.is_prefix_of(stored),
        0 <= k <= front.len(),
    ensures
        rebuilt_step(front, k) == rebuilt_step(stored, k),
        rebuilt(first, front, k) == rebuilt(first, stored, k),
    decreases k,
{
    if k > 0 {
        lemma_rebuilt_of_front(first, stored, front, k - 1);
        assert(front[k - 1] == stored.subrange(0, front.len() as int)[k - 1]);
    }
}

/// Bytes that are cut off behind any place decode to the first of the
/// timestamps that all of them decode to.
pub proof fn lemma_decode_of_front(data: Seq<u8>, cut: int)
    requires
        0 <= cut <= data.len(),
    ensures
        decoded_timestamps(data.take(cut)).is_prefix_of(decoded_timestamps(data)),
{
    let front = data.take(cut);
    if cut >= 8 {
        assert(front.subrange(0, 8) =~= data.subrange(0, 8));
        let first = spec_u64_from_le_bytes(data.subrange(0, 8)) as i64;
        lemma_read_all_of_front(data, cut, 8);
        let short = leb128_read_all(front, 8);
        let long = leb128_read_all(data, 8);
        assert forall|k: int| 0 <= k <= short.len() implies rebuilt(first, short, k) == rebuilt(
            first,
            long,
            k,
        ) by {
            lemma_rebuilt_of_front(first, long, short, k);
        }
        assert(decoded_timestamps(front) =~= decoded_timestamps(data).subrange(
            0,
            short.len() as int + 1,
        ));
    }
}

/// An encoding that is cut off behind any place decodes to the first of the
/// timestamps that were encoded.
pub proof fn lemma_truncated_timestamps(ts: Seq<i64>, cut: int)
    requires
        0 <= cut <= encoded_timestamps(ts).len(),
    ensures
        decoded_timestamps(encoded_timestamps(ts).take(cut)).is_prefix_of(ts),
{
    lemma_decode_of_front(encoded_timestamps(ts), cut);
    lemma_timestamps_round_trip(ts);
}

} // verus!
