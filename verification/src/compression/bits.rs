//! Bit streams: bits are packed into bytes most significant bit first, and a
//! last byte that is not full is padded with zero bits.

use vstd::prelude::*;

verus! {

// ---------------------------------------------------------------------------
// Bits and bytes
// ---------------------------------------------------------------------------

/// Bit `k` of a byte, where bit 0 is the most significant one.
pub open spec fn bit_of_byte(b: u8, k: int) -> bool {
    (b >> ((7 - k) as u8)) & 1 == 1
}

/// The bits of a byte sequence, eight for each byte.
pub open spec fn unpack(bytes: Seq<u8>) -> Seq<bool> {
    Seq::new(bytes.len() * 8, |i: int| bit_of_byte(bytes[i / 8], i % 8))
}

/// What bit `i` of `bits` adds to its byte if it stands at place `k` there.
/// Bits beyond the end count as zero.
pub open spec fn place(bits: Seq<bool>, i: int, k: u8) -> u8 {
    if 0 <= i < bits.len() && bits[i] {
        0x80u8 >> k
    } else {
        0
    }
}

/// Byte `j` of the packed form of `bits`.
pub open spec fn byte_of_bits(bits: Seq<bool>, j: int) -> u8 {
    place(bits, 8 * j, 0) | place(bits, 8 * j + 1, 1) | place(bits, 8 * j + 2, 2) | place(
        bits,
        8 * j + 3,
        3,
    ) | place(bits, 8 * j + 4, 4) | place(bits, 8 * j + 5, 5) | place(bits, 8 * j + 6, 6)
        | place(bits, 8 * j + 7, 7)
}

/// The packed form of `bits`: as many bytes as are needed, the last one
/// padded with zero bits.
pub open spec fn pack(bits: Seq<bool>) -> Seq<u8> {
    Seq::new((bits.len() + 7) / 8, |j: int| byte_of_bits(bits, j))
}

/// The number of zero bits that packing adds behind `len` bits.
pub open spec fn padding(len: nat) -> nat {
    ((8 - len % 8) % 8) as nat
}

/// The low `n` bits of `value`, most significant first.
pub open spec fn bits_of(value: u64, n: nat) -> Seq<bool> {
    Seq::new(n, |i: int| (value >> ((n - 1 - i) as u64)) & 1 == 1)
}

/// The number that `bits` spell, most significant bit first. Of more than 64
/// bits the last 64 count.
pub open spec fn value_of(bits: Seq<bool>) -> u64
    decreases bits.len(),
{
    if bits.len() == 0 {
        0
    } else {
        (value_of(bits.drop_last()) << 1) | (if bits.last() {
            1u64
        } else {
            0u64
        })
    }
}

proof fn lemma_places_to_bits(p0: u8, p1: u8, p2: u8, p3: u8, p4: u8, p5: u8, p6: u8, p7: u8)
    by (bit_vector)
    requires
        p0 == 0 || p0 == 0x80u8 >> 0,
        p1 == 0 || p1 == 0x80u8 >> 1,
        p2 == 0 || p2 == 0x80u8 >> 2,
        p3 == 0 || p3 == 0x80u8 >> 3,
        p4 == 0 || p4 == 0x80u8 >> 4,
        p5 == 0 || p5 == 0x80u8 >> 5,
        p6 == 0 || p6 == 0x80u8 >> 6,
        p7 == 0 || p7 == 0x80u8 >> 7,
    ensures
        (((p0 | p1 | p2 | p3 | p4 | p5 | p6 | p7) >> 7u8) & 1 == 1) == (p0 != 0),
        (((p0 | p1 | p2 | p3 | p4 | p5 | p6 | p7) >> 6u8) & 1 == 1) == (p1 != 0),
        (((p0 | p1 | p2 | p3 | p4 | p5 | p6 | p7) >> 5u8) & 1 == 1) == (p2 != 0),
        (((p0 | p1 | p2 | p3 | p4 | p5 | p6 | p7) >> 4u8) & 1 == 1) == (p3 != 0),
        (((p0 | p1 | p2 | p3 | p4 | p5 | p6 | p7) >> 3u8) & 1 == 1) == (p4 != 0),
        (((p0 | p1 | p2 | p3 | p4 | p5 | p6 | p7) >> 2u8) & 1 == 1) == (p5 != 0),
        (((p0 | p1 | p2 | p3 | p4 | p5 | p6 | p7) >> 1u8) & 1 == 1) == (p6 != 0),
        (((p0 | p1 | p2 | p3 | p4 | p5 | p6 | p7) >> 0u8) & 1 == 1) == (p7 != 0),
{
}

proof fn lemma_bits_to_byte(b: u8)
    by (bit_vector)
    ensures
        b == (if (b >> 7u8) & 1 == 1 { 0x80u8 >> 0 } else { 0 })
            | (if (b >> 6u8) & 1 == 1 { 0x80u8 >> 1 } else { 0 })
            | (if (b >> 5u8) & 1 == 1 { 0x80u8 >> 2 } else { 0 })
            | (if (b >> 4u8) & 1 == 1 { 0x80u8 >> 3 } else { 0 })
            | (if (b >> 3u8) & 1 == 1 { 0x80u8 >> 4 } else { 0 })
            | (if (b >> 2u8) & 1 == 1 { 0x80u8 >> 5 } else { 0 })
            | (if (b >> 1u8) & 1 == 1 { 0x80u8 >> 6 } else { 0 })
            | (if (b >> 0u8) & 1 == 1 { 0x80u8 >> 7 } else { 0 }),
{
}

/// Each bit of a packed byte is the bit it was made from, and zero beyond
/// the end of the bits.
pub proof fn lemma_bit_of_packed_byte(bits: Seq<bool>, j: int, k: int)
    requires
        0 <= j,
        0 <= k < 8,
    ensures
        bit_of_byte(byte_of_bits(bits, j), k) == (8 * j + k < bits.len() && bits[8 * j + k]),
{
    lemma_places_to_bits(
        place(bits, 8 * j, 0),
        place(bits, 8 * j + 1, 1),
        place(bits, 8 * j + 2, 2),
        place(bits, 8 * j + 3, 3),
        place(bits, 8 * j + 4, 4),
        place(bits, 8 * j + 5, 5),
        place(bits, 8 * j + 6, 6),
        place(bits, 8 * j + 7, 7),
    );
    assert(0x80u8 >> 0 != 0 && 0x80u8 >> 1 != 0 && 0x80u8 >> 2 != 0 && 0x80u8 >> 3 != 0 && 0x80u8
        >> 4 != 0 && 0x80u8 >> 5 != 0 && 0x80u8 >> 6 != 0 && 0x80u8 >> 7 != 0) by (bit_vector);
}

/// Unpacking what was packed gives the bits back, followed by the padding.
pub proof fn lemma_unpack_pack(bits: Seq<bool>)
    ensures
        unpack(pack(bits)) == bits + Seq::new(padding(bits.len()), |i: int| false),
{
    let bytes = pack(bits);
    let padded = bits + Seq::new(padding(bits.len()), |i: int| false);
    assert(bytes.len() * 8 == bits.len() + padding(bits.len()));
    assert forall|i: int| 0 <= i < bytes.len() * 8 implies unpack(bytes)[i] == padded[i] by {
        lemma_bit_of_packed_byte(bits, i / 8, i % 8);
    }
    assert(unpack(bytes) =~= padded);
}

/// Bytes whose bits are `bits`, followed by fewer than eight zero bits, are
/// the packed form of `bits`.
pub proof fn lemma_pack_unpacked(bytes: Seq<u8>, bits: Seq<bool>)
    requires
        bits.len() <= bytes.len() * 8 < bits.len() + 8,
        forall|i: int|
            0 <= i < bytes.len() * 8 ==> #[trigger] unpack(bytes)[i] == (i < bits.len()
                && bits[i]),
    ensures
        pack(bits) == bytes,
{
    assert forall|j: int| 0 <= j < bytes.len() implies byte_of_bits(bits, j) == bytes[j] by {
        let b = bytes[j];
        lemma_bits_to_byte(b);
        assert forall|k: int| 0 <= k < 8 implies bit_of_byte(b, k) == (8 * j + k < bits.len()
            && bits[8 * j + k]) by {
            let i = 8 * j + k;
            assert(i / 8 == j && i % 8 == k);
            assert(unpack(bytes)[i] == bit_of_byte(b, k));
        }
        assert(bit_of_byte(b, 0) == ((b >> 7u8) & 1 == 1));
        assert(bit_of_byte(b, 1) == ((b >> 6u8) & 1 == 1));
        assert(bit_of_byte(b, 2) == ((b >> 5u8) & 1 == 1));
        assert(bit_of_byte(b, 3) == ((b >> 4u8) & 1 == 1));
        assert(bit_of_byte(b, 4) == ((b >> 3u8) & 1 == 1));
        assert(bit_of_byte(b, 5) == ((b >> 2u8) & 1 == 1));
        assert(bit_of_byte(b, 6) == ((b >> 1u8) & 1 == 1));
        assert(bit_of_byte(b, 7) == ((b >> 0u8) & 1 == 1));
    }
    assert(pack(bits) =~= bytes);
}

/// The bits of a byte sequence with one more byte.
pub proof fn lemma_unpack_push(bytes: Seq<u8>, b: u8)
    ensures
        unpack(bytes.push(b)) == unpack(bytes) + Seq::new(8, |k: int| bit_of_byte(b, k)),
{
    let left = unpack(bytes.push(b));
    let right = unpack(bytes) + Seq::new(8, |k: int| bit_of_byte(b, k));
    assert(left.len() == right.len());
    assert forall|i: int| 0 <= i < left.len() implies left[i] == right[i] by {
        if i >= bytes.len() * 8 {
            assert(i / 8 == bytes.len() && i % 8 == i - bytes.len() * 8);
        }
    }
    assert(left =~= right);
}

/// The number spelt by the low `n` bits of `value` is `value`, where `value`
/// has no bits above them.
pub proof fn lemma_value_of_bits_of(value: u64, n: nat)
    requires
        n <= 64,
        n == 64 || value >> (n as u64) == 0,
    ensures
        value_of(bits_of(value, n)) == value,
    decreases n,
{
    let bits = bits_of(value, n);
    if n == 0 {
        assert(value >> 0u64 == value) by (bit_vector);
    } else {
        let half = value >> 1u64;
        let m = (n - 1) as nat;
        assert forall|i: int| 0 <= i < m implies bits.drop_last()[i] == bits_of(half, m)[i] by {
            let s = (m - 1 - i) as u64;
            assert(s < 63);
            assert((value >> 1u64) >> s == value >> ((s + 1) as u64)) by (bit_vector)
                requires
                    s < 63,
            ;
            assert((n - 1 - i) as u64 == (s + 1) as u64);
        }
        assert(bits.drop_last() =~= bits_of(half, m));
        let nn = n as u64;
        let mm = m as u64;
        assert(mm == 64 || half >> mm == 0) by (bit_vector)
            requires
                half == value >> 1u64,
                1 <= nn <= 64,
                mm == nn - 1,
                nn == 64 || value >> nn == 0,
        ;
        lemma_value_of_bits_of(half, m);
        let low = if bits.last() { 1u64 } else { 0u64 };
        assert(bits.last() == ((value >> 0u64) & 1 == 1));
        assert(((value >> 1u64) << 1u64) | low == value) by (bit_vector)
            requires
                low == if (value >> 0u64) & 1 == 1 { 1u64 } else { 0u64 },
        ;
    }
}

/// The number spelt by fewer than 64 bits has no bits above them.
pub proof fn lemma_value_of_bound(bits: Seq<bool>)
    requires
        bits.len() < 64,
    ensures
        value_of(bits) >> (bits.len() as u64) == 0,
    decreases bits.len(),
{
    if bits.len() == 0 {
        assert(0u64 >> 0u64 == 0) by (bit_vector);
    } else {
        lemma_value_of_bound(bits.drop_last());
        let v = value_of(bits.drop_last());
        let low = if bits.last() { 1u64 } else { 0u64 };
        let m = (bits.len() - 1) as u64;
        let n = bits.len() as u64;
        assert(((v << 1u64) | low) >> n == 0) by (bit_vector)
            requires
                v >> m == 0,
                n == m + 1,
                n < 64,
                low <= 1,
        ;
    }
}

// ---------------------------------------------------------------------------
// Writer
// ---------------------------------------------------------------------------

/// Collects bits and hands them out packed into bytes.
pub struct BitWriter {
    buf: Vec<u8>,
    cur: u8,
    bits_filled: u8,
}

impl BitWriter {
    /// The bits written so far.
    pub closed spec fn view(&self) -> Seq<bool> {
        unpack(self.buf@) + Seq::new(self.bits_filled as nat, |k: int| bit_of_byte(self.cur, k))
    }

    /// The byte under way is never full, and holds zero bits where nothing
    /// was written yet.
    pub closed spec fn wf(&self) -> bool {
        &&& self.bits_filled < 8
        &&& forall|k: int| self.bits_filled <= k < 8 ==> !bit_of_byte(self.cur, k)
    }

    /// A writer that holds no bits.
    pub fn new() -> (w: Self)
        ensures
            w.wf(),
            w@ == Seq::<bool>::empty(),
    {
        let w = BitWriter { buf: Vec::new(), cur: 0, bits_filled: 0 };
        proof {
            assert forall|k: int| 0 <= k < 8 implies !bit_of_byte(0u8, k) by {
                let s = (7 - k) as u8;
                assert((0u8 >> s) & 1 == 0) by (bit_vector);
            }
            assert(w@ =~= Seq::<bool>::empty());
        }
        w
    }

    /// Appends one bit: a zero bit for `bit == 0`, a one bit for any other
    /// value.
    pub fn push_bit(&mut self, bit: u8)
        requires
            old(self).wf(),
        ensures
            final(self).wf(),
            final(self)@ == old(self)@.push(bit != 0),
    {
        let filled = self.bits_filled;
        let before = self.cur;
        if bit != 0 {
            self.cur |= 1u8 << (7 - filled);
        }
        let after = self.cur;
        proof {
            assert(!bit_of_byte(before, filled as int));
            assert forall|k: int| 0 <= k < 8 implies bit_of_byte(after, k) == (if k == filled {
                bit != 0
            } else {
                bit_of_byte(before, k)
            }) by {
                let s = (7 - k) as u8;
                let t = (7 - filled) as u8;
                if bit != 0 {
                    assert(((before | (1u8 << t)) >> s) & 1 == (if s == t {
                        1u8
                    } else {
                        (before >> s) & 1
                    })) by (bit_vector)
                        requires
                            s < 8,
                            t < 8,
                            (before >> t) & 1 != 1,
                    ;
                }
            }
            assert(Seq::new((filled + 1) as nat, |k: int| bit_of_byte(after, k)) =~= Seq::new(
                filled as nat,
                |k: int| bit_of_byte(before, k),
            ).push(bit != 0));
        }
        self.bits_filled += 1;
        if self.bits_filled == 8 {
            proof {
                lemma_unpack_push(self.buf@, after);
                assert forall|k: int| 0 <= k < 8 implies !bit_of_byte(0u8, k) by {
                    let s = (7 - k) as u8;
                    assert((0u8 >> s) & 1 == 0) by (bit_vector);
                }
            }
            self.buf.push(self.cur);
            self.cur = 0;
            self.bits_filled = 0;
        }
        proof {
            assert(self@ =~= old(self)@.push(bit != 0));
        }
    }

    /// Appends the low `bits` bits of `value`, most significant first.
    pub fn write_bits(&mut self, value: u64, bits: usize)
        requires
            old(self).wf(),
            bits <= 64,
        ensures
            final(self).wf(),
            final(self)@ == old(self)@ + bits_of(value, bits as nat),
    {
        let mut i: usize = bits;
        proof {
            assert(bits_of(value, bits as nat).take(0) =~= Seq::<bool>::empty());
            assert(self@ =~= old(self)@ + bits_of(value, bits as nat).take(0));
        }
        while i > 0
            invariant
                i <= bits <= 64,
                self.wf(),
                self@ == old(self)@ + bits_of(value, bits as nat).take(bits - i),
            decreases i,
        {
            i -= 1;
            let b = ((value >> i) & 1) as u8;
            proof {
                let s = i as u64;
                assert(((value >> s) & 1) as u8 != 0 <==> (value >> s) & 1 == 1) by (bit_vector);
                let all = bits_of(value, bits as nat);
                assert(all[bits - 1 - i] == ((value >> s) & 1 == 1));
                assert(all.take(bits - i) =~= all.take(bits - 1 - i).push(all[bits - 1 - i]));
                assert((old(self)@ + all.take(bits - 1 - i)).push(all[bits - 1 - i]) =~= old(self)@
                    + all.take(bits - i));
            }
            self.push_bit(b);
        }
        proof {
            assert(bits_of(value, bits as nat).take(bits as int) =~= bits_of(value, bits as nat));
        }
    }

    /// The bits written, packed into bytes; a last byte that is not full is
    /// padded with zero bits.
    pub fn finish(self) -> (out: Vec<u8>)
        requires
            self.wf(),
        ensures
            out@ == pack(self@),
    {
        let mut buf = self.buf;
        if self.bits_filled > 0 {
            proof {
                lemma_unpack_push(buf@, self.cur);
            }
            buf.push(self.cur);
        }
        proof {
            lemma_pack_unpacked(buf@, self@);
        }
        buf
    }
}

// ---------------------------------------------------------------------------
// Reader
// ---------------------------------------------------------------------------

/// Reads the bits of a byte slice from front to back.
pub struct BitReader<'a> {
    buf: &'a [u8],
    bit_pos: usize,
}

impl<'a> BitReader<'a> {
    /// All bits of the bytes that are read from.
    pub closed spec fn bits(&self) -> Seq<bool> {
        unpack(self.buf@)
    }

    /// The number of bits read so far.
    pub closed spec fn pos(&self) -> int {
        self.bit_pos as int
    }

    /// The position lies within the bits, and the number of bits fits the
    /// machine's word.
    pub closed spec fn wf(&self) -> bool {
        self.bit_pos <= self.buf@.len() * 8 <= usize::MAX
    }

    /// A reader at the first bit of `buf`.
    pub fn new(buf: &'a [u8]) -> (r: Self)
        requires
            buf@.len() * 8 <= usize::MAX,
        ensures
            r.wf(),
            r.bits() == unpack(buf@),
            r.pos() == 0,
    {
        BitReader { buf, bit_pos: 0 }
    }

    /// The number of bits not yet read.
    pub fn remaining_bits(&self) -> (n: usize)
        requires
            self.wf(),
        ensures
            n == self.bits().len() - self.pos(),
    {
        self.buf.len() * 8 - self.bit_pos
    }

    /// Reads one bit, as 0 or 1; `None` at the end of the bits.
    pub fn read_bit(&mut self) -> (r: Option<u8>)
        requires
            old(self).wf(),
        ensures
            final(self).wf(),
            final(self).bits() == old(self).bits(),
            old(self).pos() < old(self).bits().len() ==> r == Some(
                if old(self).bits()[old(self).pos()] {
                    1u8
                } else {
                    0u8
                },
            ) && final(self).pos() == old(self).pos() + 1,
            old(self).pos() >= old(self).bits().len() ==> r.is_none() && final(self).pos() == old(
                self,
            ).pos(),
    {
        if self.bit_pos >= self.buf.len() * 8 {
            return None;
        }
        let byte_idx = self.bit_pos / 8;
        let bit_idx = 7 - (self.bit_pos % 8);
        let byte = self.buf[byte_idx];
        let b = (byte >> bit_idx) & 1;
        proof {
            let s = bit_idx as u8;
            assert((byte >> s) & 1 == (if (byte >> s) & 1 == 1 {
                1u8
            } else {
                0u8
            })) by (bit_vector);
            assert(self.bits()[self.pos()] == bit_of_byte(byte, (self.bit_pos % 8) as int));
        }
        self.bit_pos += 1;
        Some(b)
    }

    /// Reads `bits` bits as a number, most significant bit first; `None`,
    /// with nothing read, where fewer bits are left.
    pub fn read_bits(&mut self, bits: usize) -> (r: Option<u64>)
        requires
            old(self).wf(),
            bits <= 64,
        ensures
            final(self).wf(),
            final(self).bits() == old(self).bits(),
            old(self).pos() + bits <= old(self).bits().len() ==> r == Some(
                value_of(old(self).bits().subrange(old(self).pos(), old(self).pos() + bits)),
            ) && final(self).pos() == old(self).pos() + bits,
            old(self).pos() + bits > old(self).bits().len() ==> r.is_none() && final(self).pos()
                == old(self).pos(),
    {
        if self.remaining_bits() < bits {
            return None;
        }
        let ghost start = self.pos();
        let ghost all = self.bits();
        let mut v: u64 = 0;
        let mut k: usize = 0;
        proof {
            assert(all.subrange(start, start) =~= Seq::<bool>::empty());
        }
        while k < bits
            invariant
                k <= bits <= 64,
                0 <= start,
                self.wf(),
                self.bits() == all,
                self.pos() == start + k,
                start + bits <= all.len(),
                v == value_of(all.subrange(start, start + k)),
            decreases bits - k,
        {
            let bit = match self.read_bit() {
                Some(b) => b,
                None => 0,
            };
            proof {
                let longer = all.subrange(start, start + k + 1);
                assert(longer.drop_last() =~= all.subrange(start, start + k));
                assert(longer.last() == all[start + k]);
            }
            v = (v << 1) | (bit as u64);
            k += 1;
        }
        Some(v)
    }
}

} // verus!
