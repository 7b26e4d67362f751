//! Bit-granular channels over in-memory byte buffers.
//!
//! `BitWriter` packs bits most-significant-first into an accumulator byte and
//! appends each completed byte to its buffer; `BitReader` hands the bits of a
//! byte buffer back one at a time in the same order.

use vstd::prelude::*;
use vstd::arithmetic::power2::{pow2, lemma2_to64, lemma_pow2_strictly_increases};
use crate::HuffError;

verus! {

/// One byte as its eight bits, most-significant bit first.
pub open spec fn byte_to_bits(b: u8) -> Seq<bool> {
    Seq::new(8, |i: int| b & (0x80u8 >> (i as u8)) != 0)
}

/// A byte sequence as one bit stream, each byte most-significant bit first.
pub open spec fn bytes_to_bits(s: Seq<u8>) -> Seq<bool>
    decreases s.len(),
{
    if s.len() == 0 {
        Seq::empty()
    } else {
        byte_to_bits(s[0]) + bytes_to_bits(s.drop_first())
    }
}

/// The low `n` bits of `v`, most-significant bit first.
pub open spec fn code_seq(v: u32, n: int) -> Seq<bool> {
    Seq::new(n as nat, |i: int| v >> ((n - 1 - i) as u32) & 1 == 1)
}

/// The value of a bit string read most-significant bit first.
pub open spec fn bits_val(s: Seq<bool>) -> nat
    decreases s.len(),
{
    if s.len() == 0 {
        0
    } else {
        2 * bits_val(s.drop_last()) + if s.last() {
            1nat
        } else {
            0nat
        }
    }
}

pub proof fn lemma_bytes_to_bits_len(s: Seq<u8>)
    ensures
        bytes_to_bits(s).len() == 8 * s.len(),
    decreases s.len(),
{
    if s.len() != 0 {
        lemma_bytes_to_bits_len(s.drop_first());
    }
}

pub proof fn lemma_bytes_to_bits_push(s: Seq<u8>, b: u8)
    ensures
        bytes_to_bits(s.push(b)) == bytes_to_bits(s) + byte_to_bits(b),
    decreases s.len(),
{
    assert(s.push(b)[0] == if s.len() == 0 {
        b
    } else {
        s[0]
    });
    if s.len() == 0 {
        assert(s.push(b).drop_first() =~= Seq::<u8>::empty());
        assert(bytes_to_bits(s.push(b)) == byte_to_bits(b) + bytes_to_bits(
            Seq::<u8>::empty()));
        assert(bytes_to_bits(Seq::<u8>::empty()) == Seq::<bool>::empty());
        assert(bytes_to_bits(s.push(b)) =~= bytes_to_bits(s) + byte_to_bits(b));
    } else {
        assert(s.push(b).drop_first() =~= s.drop_first().push(b));
        lemma_bytes_to_bits_push(s.drop_first(), b);
        assert(bytes_to_bits(s.push(b)) =~= bytes_to_bits(s) + byte_to_bits(b));
    }
}

pub proof fn lemma_bytes_to_bits_concat(a: Seq<u8>, b: Seq<u8>)
    ensures
        bytes_to_bits(a + b) == bytes_to_bits(a) + bytes_to_bits(b),
    decreases a.len(),
{
    if a.len() == 0 {
        assert(a + b =~= b);
        assert(bytes_to_bits(a) + bytes_to_bits(b) =~= bytes_to_bits(b));
    } else {
        assert((a + b).drop_first() =~= a.drop_first() + b);
        lemma_bytes_to_bits_concat(a.drop_first(), b);
        assert((a + b)[0] == a[0]);
        assert(bytes_to_bits(a + b) =~= bytes_to_bits(a) + bytes_to_bits(b));
    }
}

/// Bit `j` of the stream of `s` within byte `bi` is bit `j` of that byte.
pub proof fn lemma_bytes_to_bits_index(s: Seq<u8>, bi: int, j: int)
    requires
        0 <= bi < s.len(),
        0 <= j < 8,
    ensures
        bytes_to_bits(s).len() == 8 * s.len(),
        bytes_to_bits(s)[8 * bi + j] == byte_to_bits(s[bi])[j],
    decreases bi,
{
    lemma_bytes_to_bits_len(s);
    lemma_bytes_to_bits_len(s.drop_first());
    if bi == 0 {
    } else {
        lemma_bytes_to_bits_index(s.drop_first(), bi - 1, j);
    }
}

/// A byte's bits are its eight-bit pattern.
pub proof fn lemma_byte_code_seq(b: u8)
    ensures
        byte_to_bits(b) == code_seq(b as u32, 8),
{
    assert forall|j: int| 0 <= j < 8 implies byte_to_bits(b)[j] == code_seq(b as u32, 8)[j] by {
        let ju = j as u8;
        let w = b as u32;
        let k = (8 - 1 - j) as u32;
        assert(ju < 8 && w == b as u32 && k == (7 - ju) as u32 ==> ((w >> k) & 1 == 1) == (b
            & (0x80u8 >> ju) != 0)) by (bit_vector);
    }
    assert(byte_to_bits(b) =~= code_seq(b as u32, 8));
}

/// Two bytes with the same bits are the same byte.
pub proof fn lemma_byte_bits_injective(x: u8, y: u8)
    requires
        byte_to_bits(x) == byte_to_bits(y),
    ensures
        x == y,
{
    lemma_byte_code_seq(x);
    lemma_byte_code_seq(y);
    lemma2_to64();
    lemma_bits_val_of_code_seq(x as u32, 8);
    lemma_bits_val_of_code_seq(y as u32, 8);
}

/// A byte sequence is recovered from any stream whose leading bits agree
/// with its bits.
pub proof fn lemma_bytes_bits_prefix(a: Seq<u8>, b: Seq<u8>)
    requires
        b.len() <= a.len(),
        forall|i: int| 0 <= i < 8 * b.len() ==> bytes_to_bits(a)[i] == bytes_to_bits(b)[i],
    ensures
        a.subrange(0, b.len() as int) == b,
{
    assert forall|bi: int| 0 <= bi < b.len() implies a[bi] == b[bi] by {
        assert forall|j: int| 0 <= j < 8 implies byte_to_bits(a[bi])[j] == byte_to_bits(
            b[bi])[j] by {
            lemma_bytes_to_bits_index(a, bi, j);
            lemma_bytes_to_bits_index(b, bi, j);
            assert(bytes_to_bits(a)[8 * bi + j] == bytes_to_bits(b)[8 * bi + j]);
        }
        assert(byte_to_bits(a[bi]) =~= byte_to_bits(b[bi]));
        lemma_byte_bits_injective(a[bi], b[bi]);
    }
    assert(a.subrange(0, b.len() as int) =~= b);
}

/// A plain copy of a byte buffer.
pub fn copy_bytes(v: &Vec<u8>) -> (r: Vec<u8>)
    ensures
        r@ == v@,
{
    let mut r: Vec<u8> = Vec::new();
    let mut i: usize = 0;
    while i < v.len()
        invariant
            i <= v@.len(),
            r@ == v@.take(i as int),
        decreases v@.len() - i,
    {
        r.push(v[i]);
        proof {
            assert(v@.take(i + 1) =~= v@.take(i as int).push(v@[i as int]));
        }
        i = i + 1;
    }
    proof {
        assert(v@.take(v@.len() as int) =~= v@);
    }
    r
}

/// Writes bits most-significant-first, buffering up to seven of them until a
/// whole byte can be appended to the output buffer.
pub struct BitWriter {
    bytes: Vec<u8>,
    rack: u8,
    nbits: u8,
}

impl BitWriter {
    /// The accumulator holds fewer than eight bits and nothing below them.
    pub closed spec fn wf(self) -> bool {
        self.nbits < 8 && self.rack & (0xffu8 >> self.nbits) == 0
    }

    /// All bits written so far, in order.
    pub closed spec fn view(self) -> Seq<bool> {
        bytes_to_bits(self.bytes@) + byte_to_bits(self.rack).take(self.nbits as int)
    }

    pub fn new() -> (w: BitWriter)
        ensures
            w.wf(),
            w@ == Seq::<bool>::empty(),
    {
        let w = BitWriter { bytes: Vec::new(), rack: 0, nbits: 0 };
        proof {
            assert(0u8 & (0xffu8 >> 0u8) == 0) by (bit_vector);
            assert(w@ =~= Seq::<bool>::empty());
        }
        w
    }

    /// Starts a writer whose output already holds the given whole bytes.
    pub fn from_bytes(bytes: Vec<u8>) -> (w: BitWriter)
        ensures
            w.wf(),
            w@ == bytes_to_bits(bytes@),
    {
        let w = BitWriter { bytes, rack: 0, nbits: 0 };
        proof {
            assert(0u8 & (0xffu8 >> 0u8) == 0) by (bit_vector);
            assert(w@ =~= bytes_to_bits(w.bytes@));
        }
        w
    }

    /// Packs one bit at the current position of the accumulator; a completed
    /// byte moves to the output buffer.
    pub fn output_bit(&mut self, bit: bool)
        requires
            old(self).wf(),
        ensures
            final(self).wf(),
            final(self)@ == old(self)@.push(bit),
    {
        let ghost pre = *self;
        let n = self.nbits;
        if bit {
            self.rack = self.rack | (0x80u8 >> n);
        }
        proof {
            lemma_rack_push(pre.rack, n, bit);
            assert(byte_to_bits(self.rack).take(n + 1) =~= byte_to_bits(pre.rack).take(
                n as int).push(bit));
        }
        self.nbits = n + 1;
        if self.nbits == 8 {
            let ghost full = *self;
            self.bytes.push(self.rack);
            self.rack = 0;
            self.nbits = 0;
            proof {
                lemma_bytes_to_bits_push(pre.bytes@, full.rack);
                assert(byte_to_bits(full.rack).take(8) =~= byte_to_bits(full.rack));
                assert(byte_to_bits(0u8).take(0) =~= Seq::<bool>::empty());
                assert(0u8 & (0xffu8 >> 0u8) == 0) by (bit_vector);
                assert(self@ =~= pre@.push(bit));
            }
        } else {
            proof {
                assert(self@ =~= pre@.push(bit));
            }
        }
    }

    /// Writes the low `count` bits of `value`, most-significant bit first.
    pub fn output_bits(&mut self, value: u32, count: u32)
        requires
            old(self).wf(),
            count <= 32,
        ensures
            final(self).wf(),
            final(self)@ == old(self)@ + code_seq(value, count as int),
    {
        let ghost pre = *self;
        let mut i: u32 = 0;
        proof {
            assert(self@ =~= pre@ + code_seq(value, count as int).take(0));
        }
        while i < count
            invariant
                pre == *old(self),
                self.wf(),
                i <= count <= 32,
                self@ == pre@ + code_seq(value, count as int).take(i as int),
            decreases count - i,
        {
            let bit = (value >> (count - 1 - i)) & 1 == 1;
            self.output_bit(bit);
            proof {
                assert(code_seq(value, count as int).take(i + 1) =~= code_seq(
                    value, count as int).take(i as int).push(bit));
            }
            i = i + 1;
        }
        proof {
            assert(code_seq(value, count as int).take(count as int) =~= code_seq(
                value, count as int));
        }
    }

    /// Flushes a final partial byte, padded with zero bits, and hands the
    /// whole buffer out; the written bits are a prefix of the buffer's bits.
    pub fn close_output(self) -> (r: Vec<u8>)
        requires
            self.wf(),
        ensures
            bytes_to_bits(r@).take(self@.len() as int) == self@,
            self@.len() <= 8 * r@.len() < self@.len() + 8,
    {
        let ghost pre = self;
        let BitWriter { mut bytes, rack, nbits } = self;
        proof {
            lemma_bytes_to_bits_len(bytes@);
        }
        if nbits != 0 {
            bytes.push(rack);
            proof {
                lemma_bytes_to_bits_push(pre.bytes@, rack);
                lemma_bytes_to_bits_len(bytes@);
                assert(bytes_to_bits(bytes@).take(pre@.len() as int) =~= pre@);
            }
        } else {
            proof {
                assert(bytes_to_bits(bytes@).take(pre@.len() as int) =~= pre@);
            }
        }
        bytes
    }
}

/// Setting the bit below `n` already-set bits keeps the bits above it, makes
/// position `n` the new bit, and leaves the positions below `n + 1` clear.
proof fn lemma_rack_push(rack: u8, n: u8, bit: bool)
    requires
        n < 8,
        rack & (0xffu8 >> n) == 0,
    ensures
        ({
            let r2 = if bit {
                rack | (0x80u8 >> n)
            } else {
                rack
            };
            &&& forall|j: int|
                0 <= j < n ==> byte_to_bits(r2)[j] == byte_to_bits(rack)[j]
            &&& byte_to_bits(r2)[n as int] == bit
            &&& n + 1 < 8 ==> r2 & (0xffu8 >> ((n + 1) as u8)) == 0
        }),
{
    let r2 = if bit {
        rack | (0x80u8 >> n)
    } else {
        rack
    };
    assert forall|j: int| 0 <= j < n implies byte_to_bits(r2)[j] == byte_to_bits(rack)[j] by {
        let ju = j as u8;
        assert(ju < n && n < 8 ==> (rack | (0x80u8 >> n)) & (0x80u8 >> ju) == rack & (0x80u8
            >> ju)) by (bit_vector);
    }
    assert(n < 8 && rack & (0xffu8 >> n) == 0 ==> rack & (0x80u8 >> n) == 0) by (bit_vector);
    assert(n < 8 ==> (rack | (0x80u8 >> n)) & (0x80u8 >> n) != 0) by (bit_vector);
    if n + 1 < 8 {
        lemma_rack_clear(rack, n, (n + 1) as u8);
    }
}

/// After taking one more bit position, the positions below the new count of
/// packed bits stay clear, whether or not the new bit was set.
proof fn lemma_rack_clear(rack: u8, n: u8, n1: u8)
    by (bit_vector)
    requires
        n < 8,
        n1 == n + 1,
        n1 < 8,
        rack & (0xffu8 >> n) == 0,
    ensures
        (rack | (0x80u8 >> n)) & (0xffu8 >> n1) == 0,
        rack & (0xffu8 >> n1) == 0,
{
}

/// Reads the bits of a byte buffer back in writing order, most-significant
/// bit of each byte first.
pub struct BitReader {
    data: Vec<u8>,
    byte_pos: usize,
    bit_pos: u8,
}

impl BitReader {
    pub closed spec fn wf(self) -> bool {
        &&& self.bit_pos < 8
        &&& self.byte_pos <= self.data@.len()
        &&& self.byte_pos == self.data@.len() ==> self.bit_pos == 0
    }

    /// The whole bit stream this reader walks over.
    pub closed spec fn stream(self) -> Seq<bool> {
        bytes_to_bits(self.data@)
    }

    /// How many bits have been consumed so far.
    pub closed spec fn consumed(self) -> int {
        8 * self.byte_pos + self.bit_pos
    }

    /// Starts reading at the given whole-byte offset of the buffer.
    pub fn new_at(data: Vec<u8>, start: usize) -> (r: BitReader)
        requires
            start <= data@.len(),
        ensures
            r.wf(),
            r.stream() == bytes_to_bits(data@),
            r.consumed() == 8 * start,
    {
        if start == data.len() {
            BitReader { data, byte_pos: start, bit_pos: 0 }
        } else {
            BitReader { data, byte_pos: start, bit_pos: 0 }
        }
    }

    /// Returns the next bit of the stream, or reports that it ran out.
    pub fn input_bit(&mut self) -> (r: Result<bool, HuffError>)
        requires
            old(self).wf(),
        ensures
            final(self).wf(),
            final(self).stream() == old(self).stream(),
            old(self).consumed() < old(self).stream().len() ==> {
                &&& r == Ok::<bool, HuffError>(old(self).stream()[old(self).consumed()])
                &&& final(self).consumed() == old(self).consumed() + 1
            },
            old(self).consumed() >= old(self).stream().len() ==> {
                &&& r == Err::<bool, HuffError>(HuffError::UnexpectedEndOfStream)
                &&& final(self).consumed() == old(self).consumed()
            },
    {
        proof {
            lemma_bytes_to_bits_len(self.data@);
        }
        if self.byte_pos == self.data.len() {
            return Err(HuffError::UnexpectedEndOfStream);
        }
        let b = self.data[self.byte_pos];
        let bit = b & (0x80u8 >> self.bit_pos) != 0;
        proof {
            lemma_bytes_to_bits_index(self.data@, self.byte_pos as int, self.bit_pos as int);
        }
        self.bit_pos = self.bit_pos + 1;
        if self.bit_pos == 8 {
            self.bit_pos = 0;
            self.byte_pos = self.byte_pos + 1;
        }
        Ok(bit)
    }

    /// A sound reader never stands past the end of its stream.
    pub proof fn lemma_reader_bounds(self)
        requires
            self.wf(),
        ensures
            0 <= self.consumed() <= self.stream().len(),
    {
        lemma_bytes_to_bits_len(self.data@);
    }

    /// Reads `count` bits, most-significant bit first, into one value.
    pub fn input_bits(&mut self, count: u32) -> (r: Result<u32, HuffError>)
        requires
            old(self).wf(),
            count <= 32,
        ensures
            final(self).wf(),
            final(self).stream() == old(self).stream(),
            old(self).consumed() + count <= old(self).stream().len() ==> {
                &&& r == Ok::<u32, HuffError>(
                    bits_val(
                        old(self).stream().subrange(
                            old(self).consumed(),
                            old(self).consumed() + count,
                        ),
                    ) as u32)
                &&& final(self).consumed() == old(self).consumed() + count
            },
            old(self).consumed() + count > old(self).stream().len() ==> r == Err::<
                u32,
                HuffError,
            >(HuffError::UnexpectedEndOfStream),
    {
        let ghost pre = *self;
        let mut value: u32 = 0;
        let mut i: u32 = 0;
        proof {
            lemma_bytes_to_bits_len(self.data@);
            assert(pre.stream().subrange(pre.consumed(), pre.consumed() + 0) =~= Seq::<
                bool,
            >::empty());
        }
        while i < count
            invariant
                pre == *old(self),
                self.wf(),
                self.stream() == pre.stream(),
                i <= count <= 32,
                self.consumed() == pre.consumed() + i,
                pre.consumed() + i <= pre.stream().len(),
                value == bits_val(pre.stream().subrange(pre.consumed(), pre.consumed() + i)),
            decreases count - i,
        {
            let bit = match self.input_bit() {
                Ok(b) => b,
                Err(e) => {
                    return Err(e);
                },
            };
            proof {
                let s = pre.stream().subrange(pre.consumed(), pre.consumed() + i + 1);
                assert(s.drop_last() =~= pre.stream().subrange(
                    pre.consumed(), pre.consumed() + i));
                assert(s.last() == bit);
                lemma_bits_val_bound(s);
                if i + 1 < 32 {
                    lemma_pow2_strictly_increases((i + 1) as nat, 32);
                }
                lemma2_to64();
            }
            value = 2 * value + if bit {
                1
            } else {
                0
            };
            i = i + 1;
        }
        proof {
            assert(pre.stream().subrange(pre.consumed(), pre.consumed() + count) =~= pre
                .stream().subrange(pre.consumed(), pre.consumed() + i));
        }
        Ok(value)
    }
}

/// Dropping the last bit of a bit pattern halves its value, and the last
/// bit is the value's lowest bit.
pub proof fn lemma_code_seq_shift(v: u32, n: int)
    requires
        1 <= n <= 32,
    ensures
        code_seq(v, n).drop_last() == code_seq(v >> 1u32, n - 1),
        code_seq(v, n).last() == (v & 1 == 1),
{
    assert forall|i: int| 0 <= i < n - 1 implies code_seq(v, n)[i] == code_seq(
        v >> 1u32, n - 1)[i] by {
        let k = (n - 1 - i) as u32;
        assert((v >> k) & 1 == ((v >> 1u32) >> ((k - 1) as u32)) & 1) by (bit_vector)
            requires
                1 <= k < 32u32,
        ;
        assert(((n - 1) - 1 - i) as u32 == k - 1);
    }
    assert(code_seq(v, n).drop_last() =~= code_seq(v >> 1u32, n - 1));
    assert((v >> 0u32) & 1 == v & 1) by (bit_vector);
}

/// A bit pattern is recovered from its value and its length.
pub proof fn lemma_code_seq_of_bits_val(s: Seq<bool>)
    requires
        s.len() <= 32,
    ensures
        bits_val(s) < pow2(s.len() as nat),
        code_seq(bits_val(s) as u32, s.len() as int) == s,
    decreases s.len(),
{
    lemma_bits_val_bound(s);
    if s.len() == 0 {
        assert(code_seq(bits_val(s) as u32, 0) =~= s);
    } else {
        let s0 = s.drop_last();
        let n = s.len() as int;
        lemma_code_seq_of_bits_val(s0);
        if s0.len() < 31 {
            lemma_pow2_strictly_increases(s0.len() as nat, 31);
        }
        if n < 32 {
            lemma_pow2_strictly_increases(n as nat, 32);
        }
        lemma2_to64();
        let v0 = bits_val(s0) as u32;
        let bb: u32 = if s.last() {
            1
        } else {
            0
        };
        let vv = bits_val(s) as u32;
        assert(vv == 2 * v0 + bb);
        assert(vv >> 1u32 == v0 && (vv & 1 == 1) == (bb == 1u32)) by (bit_vector)
            requires
                vv == 2 * v0 + bb,
                v0 < 0x80000000u32,
                bb < 2u32,
        ;
        lemma_code_seq_shift(vv, n);
        assert(code_seq(vv, n).drop_last() == s.drop_last());
        assert forall|i: int| 0 <= i < n implies code_seq(vv, n)[i] == s[i] by {
            if i < n - 1 {
                assert(code_seq(vv, n)[i] == code_seq(vv, n).drop_last()[i]);
                assert(s[i] == s.drop_last()[i]);
            } else {
                assert(code_seq(vv, n)[i] == code_seq(vv, n).last());
                assert(s[i] == s.last());
            }
        }
        assert(code_seq(vv, n) =~= s);
    }
}

/// A value below two-to-the-length is recovered from its bit pattern.
pub proof fn lemma_bits_val_of_code_seq(v: u32, n: int)
    requires
        0 <= n <= 32,
        v < pow2(n as nat),
    ensures
        bits_val(code_seq(v, n)) == v,
    decreases n,
{
    lemma2_to64();
    if n == 0 {
    } else {
        lemma_code_seq_shift(v, n);
        vstd::arithmetic::power2::lemma_pow2_unfold(n as nat);
        vstd::bits::lemma_u32_shr_is_div(v, 1);
        vstd::arithmetic::div_mod::lemma_multiply_divide_lt(
            v as int,
            pow2((n - 1) as nat) as int,
            2,
        );
        lemma_bits_val_of_code_seq(v >> 1u32, n - 1);
        assert(v == 2 * (v >> 1u32) + (v & 1)) by (bit_vector);
        assert(bits_val(code_seq(v, n)) == 2 * bits_val(code_seq(v >> 1u32, n - 1)) + if v & 1
            == 1 {
            1nat
        } else {
            0nat
        });
    }
}

/// A bit string's value fits in as many bits as it has.
pub proof fn lemma_bits_val_bound(s: Seq<bool>)
    ensures
        bits_val(s) < pow2(s.len() as nat),
    decreases s.len(),
{
    if s.len() == 0 {
        lemma2_to64();
    } else {
        vstd::arithmetic::power2::lemma_pow2_unfold(s.len() as nat);
        lemma_bits_val_bound(s.drop_last());
    }
}

} // verus!
