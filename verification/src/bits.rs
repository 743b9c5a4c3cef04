//! Bit-level I/O: a writer that packs bits into bytes and a reader that
//! unpacks them again, both most-significant-bit first.

use vstd::prelude::*;

verus! {

/// The bits of one byte, most significant bit first.
pub open spec fn byte_bits(b: u8) -> Seq<bool> {
    Seq::new(8, |i: int| ((b >> ((7 - i) as u8)) & 1u8) == 1u8)
}

/// All bits of a byte sequence; each byte contributes its bits most
/// significant first.
pub open spec fn bytes_bits(s: Seq<u8>) -> Seq<bool>
    decreases s.len(),
{
    if s.len() == 0 {
        Seq::empty()
    } else {
        byte_bits(s[0]) + bytes_bits(s.skip(1))
    }
}

/// Number of filler bits that byte-aligning a bit sequence of length `n` adds.
pub open spec fn pad_len(n: nat) -> nat {
    ((8 - n % 8) % 8) as nat
}

/// A bit sequence padded with zero bits up to a whole number of bytes.
pub open spec fn pad_bits(bits: Seq<bool>) -> Seq<bool> {
    bits + Seq::new(pad_len(bits.len()), |i: int| false)
}

pub proof fn lemma_bytes_bits_len(s: Seq<u8>)
    ensures
        bytes_bits(s).len() == 8 * s.len(),
    decreases s.len(),
{
    if s.len() > 0 {
        lemma_bytes_bits_len(s.skip(1));
    }
}

pub proof fn lemma_bytes_bits_push(s: Seq<u8>, b: u8)
    ensures
        bytes_bits(s.push(b)) == bytes_bits(s) + byte_bits(b),
    decreases s.len(),
{
    if s.len() == 0 {
        assert(s.push(b)[0] == b);
        assert(s.push(b).skip(1) =~= Seq::<u8>::empty());
        assert(bytes_bits(s.push(b).skip(1)) == Seq::<bool>::empty());
        assert(bytes_bits(s.push(b)) == byte_bits(b) + Seq::<bool>::empty());
        assert(bytes_bits(s) == Seq::<bool>::empty());
        assert(byte_bits(b) + Seq::<bool>::empty() =~= Seq::<bool>::empty() + byte_bits(b));
    } else {
        assert(s.push(b).skip(1) =~= s.skip(1).push(b));
        lemma_bytes_bits_push(s.skip(1), b);
        assert(bytes_bits(s.push(b)) =~= bytes_bits(s) + byte_bits(b));
    }
}

pub proof fn lemma_bytes_bits_index(s: Seq<u8>, i: int)
    requires
        0 <= i < 8 * s.len(),
    ensures
        bytes_bits(s)[i] == byte_bits(s[i / 8])[i % 8],
    decreases s.len(),
{
    lemma_bytes_bits_len(s);
    if i < 8 {
        assert(i / 8 == 0 && i % 8 == i) by (nonlinear_arith)
            requires 0 <= i < 8;
    } else {
        lemma_bytes_bits_len(s.skip(1));
        lemma_bytes_bits_index(s.skip(1), i - 8);
        assert((i - 8) / 8 == i / 8 - 1 && (i - 8) % 8 == i % 8) by (nonlinear_arith)
            requires i >= 8;
        assert(s.skip(1)[(i - 8) / 8] == s[i / 8]);
    }
}

pub proof fn lemma_byte_bits_zero()
    ensures
        forall|j: int| 0 <= j < 8 ==> !byte_bits(0u8)[j],
{
    assert forall|j: int| 0 <= j < 8 implies !byte_bits(0u8)[j] by {
        let ju = j as u8;
        assert(((0u8 >> ((7 - ju) as u8)) & 1u8) == 0u8) by (bit_vector)
            requires ju < 8;
    }
}

proof fn lemma_byte_bits_unfold(x: u8, j: int)
    requires
        0 <= j < 8,
    ensures
        byte_bits(x)[j] == (((x >> ((7 - j) as u8)) & 1u8) == 1u8),
{
}

/// Two bytes with the same bits are the same byte.
pub proof fn lemma_byte_bits_inj(a: u8, b: u8)
    requires
        byte_bits(a) == byte_bits(b),
    ensures
        a == b,
{
    lemma_byte_bits_unfold(a, 0);
    lemma_byte_bits_unfold(a, 1);
    lemma_byte_bits_unfold(a, 2);
    lemma_byte_bits_unfold(a, 3);
    lemma_byte_bits_unfold(a, 4);
    lemma_byte_bits_unfold(a, 5);
    lemma_byte_bits_unfold(a, 6);
    lemma_byte_bits_unfold(a, 7);
    lemma_byte_bits_unfold(b, 0);
    lemma_byte_bits_unfold(b, 1);
    lemma_byte_bits_unfold(b, 2);
    lemma_byte_bits_unfold(b, 3);
    lemma_byte_bits_unfold(b, 4);
    lemma_byte_bits_unfold(b, 5);
    lemma_byte_bits_unfold(b, 6);
    lemma_byte_bits_unfold(b, 7);
    assert(a == b) by (bit_vector)
        requires
            (((a >> ((7 - 0) as u8)) & 1u8) == 1u8) == (((b >> ((7 - 0) as u8)) & 1u8) == 1u8),
            (((a >> ((7 - 1) as u8)) & 1u8) == 1u8) == (((b >> ((7 - 1) as u8)) & 1u8) == 1u8),
            (((a >> ((7 - 2) as u8)) & 1u8) == 1u8) == (((b >> ((7 - 2) as u8)) & 1u8) == 1u8),
            (((a >> ((7 - 3) as u8)) & 1u8) == 1u8) == (((b >> ((7 - 3) as u8)) & 1u8) == 1u8),
            (((a >> ((7 - 4) as u8)) & 1u8) == 1u8) == (((b >> ((7 - 4) as u8)) & 1u8) == 1u8),
            (((a >> ((7 - 5) as u8)) & 1u8) == 1u8) == (((b >> ((7 - 5) as u8)) & 1u8) == 1u8),
            (((a >> ((7 - 6) as u8)) & 1u8) == 1u8) == (((b >> ((7 - 6) as u8)) & 1u8) == 1u8),
            (((a >> ((7 - 7) as u8)) & 1u8) == 1u8) == (((b >> ((7 - 7) as u8)) & 1u8) == 1u8);
}

pub proof fn lemma_set_bit(c: u8, k: u8)
    requires
        k < 8,
    ensures
        forall|j: int| 0 <= j < 8 && j != k ==> byte_bits(c | (1u8 << ((7 - k) as u8)))[j]
            == byte_bits(c)[j],
        byte_bits(c | (1u8 << ((7 - k) as u8)))[k as int],
{
    let c2 = c | (1u8 << ((7 - k) as u8));
    assert forall|j: int| 0 <= j < 8 && j != k implies byte_bits(c2)[j] == byte_bits(c)[j] by {
        let ju = j as u8;
        assert(((c2 >> ((7 - ju) as u8)) & 1u8) == ((c >> ((7 - ju) as u8)) & 1u8)) by (bit_vector)
            requires ju < 8, k < 8, ju != k, c2 == c | (1u8 << ((7 - k) as u8));
    }
    assert(((c2 >> ((7 - k) as u8)) & 1u8) == 1u8) by (bit_vector)
        requires k < 8, c2 == c | (1u8 << ((7 - k) as u8));
}

/// Accumulates single bits into a growable byte buffer, most significant bit
/// of each byte first. Its view is the sequence of bits written so far.
pub struct BitWriter {
    bytes: Vec<u8>,
    current_byte: u8,
    bit_count: u8,
}

impl View for BitWriter {
    type V = Seq<bool>;

    closed spec fn view(&self) -> Seq<bool> {
        bytes_bits(self.bytes@) + byte_bits(self.current_byte).take(self.bit_count as int)
    }
}

impl BitWriter {
    pub closed spec fn wf(&self) -> bool {
        &&& self.bit_count < 8
        &&& forall|j: int| self.bit_count <= j < 8 ==> !byte_bits(self.current_byte)[j]
    }

    /// True once every written bit sits in a whole byte (after `flush`).
    pub closed spec fn flushed(&self) -> bool {
        self.bit_count == 0
    }

    pub fn new() -> (w: BitWriter)
        ensures
            w.wf(),
            w@ == Seq::<bool>::empty(),
            w.flushed(),
    {
        proof {
            lemma_byte_bits_zero();
        }
        let w = BitWriter { bytes: Vec::new(), current_byte: 0, bit_count: 0 };
        proof {
            assert(w@ =~= Seq::<bool>::empty());
        }
        w
    }

    pub fn write_bit(&mut self, bit: bool)
        requires
            old(self).wf(),
        ensures
            final(self).wf(),
            final(self)@ == old(self)@.push(bit),
    {
        let k = self.bit_count;
        let old_byte = self.current_byte;
        if bit {
            self.current_byte = self.current_byte | (1u8 << ((7 - self.bit_count) as u8));
        }
        self.bit_count = self.bit_count + 1;
        proof {
            if bit {
                lemma_set_bit(old_byte, k);
            }
            assert forall|j: int| self.bit_count <= j < 8 implies !byte_bits(
                self.current_byte,
            )[j] by {
                assert(!byte_bits(old_byte)[j]);
                if bit {
                    assert(byte_bits(self.current_byte)[j] == byte_bits(old_byte)[j]);
                }
            }
            assert(byte_bits(self.current_byte).take(self.bit_count as int)
                =~= byte_bits(old_byte).take(k as int).push(bit));
            assert(bytes_bits(self.bytes@) + byte_bits(self.current_byte).take(self.bit_count as int)
                =~= old(self)@.push(bit));
        }
        if self.bit_count == 8 {
            let full = self.current_byte;
            self.bytes.push(full);
            self.current_byte = 0;
            self.bit_count = 0;
            proof {
                lemma_byte_bits_zero();
                assert forall|j: int| self.bit_count <= j < 8 implies !byte_bits(
                    self.current_byte,
                )[j] by {
                    assert(!byte_bits(0u8)[j]);
                }
                lemma_bytes_bits_push(old(self).bytes@, full);
                assert(byte_bits(full).take(8) =~= byte_bits(full));
                assert(self@ =~= old(self)@.push(bit));
            }
        }
    }

    pub fn write_bits(&mut self, bits: &[bool])
        requires
            old(self).wf(),
        ensures
            final(self).wf(),
            final(self)@ == old(self)@ + bits@,
    {
        let mut i: usize = 0;
        while i < bits.len()
            invariant
                old(self).wf(),
                self.wf(),
                i <= bits@.len(),
                self@ == old(self)@ + bits@.take(i as int),
            decreases bits@.len() - i,
        {
            self.write_bit(bits[i]);
            i = i + 1;
            proof {
                assert(old(self)@ + bits@.take(i as int)
                    =~= (old(self)@ + bits@.take(i - 1)).push(bits@[i - 1]));
            }
        }
        proof {
            assert(bits@.take(bits@.len() as int) =~= bits@);
        }
    }

    /// Pads any partial trailing byte with zero bits and finalizes it.
    pub fn flush(&mut self)
        requires
            old(self).wf(),
        ensures
            final(self).wf(),
            final(self).flushed(),
            final(self)@ == pad_bits(old(self)@),
    {
        proof {
            lemma_bytes_bits_len(self.bytes@);
            assert((8 * self.bytes@.len() + self.bit_count) % 8 == self.bit_count) by (nonlinear_arith)
                requires self.bit_count < 8;
        }
        if self.bit_count > 0 {
            let full = self.current_byte;
            self.bytes.push(full);
            self.current_byte = 0;
            self.bit_count = 0;
            proof {
                lemma_byte_bits_zero();
                lemma_bytes_bits_push(old(self).bytes@, full);
                assert(self@ =~= pad_bits(old(self)@));
            }
        } else {
            proof {
                assert(self@ =~= pad_bits(old(self)@));
            }
        }
    }

    /// Hands out the byte buffer: every whole byte written so far.
    pub fn into_bytes(self) -> (r: Vec<u8>)
        requires
            self.wf(),
        ensures
            8 * r@.len() == self@.len() - self@.len() % 8,
            bytes_bits(r@) == self@.take(self@.len() - self@.len() % 8),
            self.flushed() ==> bytes_bits(r@) == self@,
    {
        proof {
            lemma_bytes_bits_len(self.bytes@);
            assert((8 * self.bytes@.len() + self.bit_count) % 8 == self.bit_count) by (nonlinear_arith)
                requires self.bit_count < 8;
            assert(bytes_bits(self.bytes@) =~= self@.take(self@.len() - self@.len() % 8));
            if self.bit_count == 0 {
                assert(bytes_bits(self.bytes@) =~= self@);
            }
        }
        self.bytes
    }
}

/// Reads bits back out of a byte slice, most significant bit of each byte
/// first, advancing one bit at a time.
pub struct BitReader<'a> {
    bytes: &'a [u8],
    pos: usize,
    bit_pos: u8,
}

impl<'a> BitReader<'a> {
    /// All bits of the underlying slice.
    pub closed spec fn spec_bits(&self) -> Seq<bool> {
        bytes_bits(self.bytes@)
    }

    /// How many bits have been consumed.
    pub closed spec fn spec_pos(&self) -> nat {
        (8 * self.pos + self.bit_pos) as nat
    }

    pub closed spec fn wf(&self) -> bool {
        &&& self.pos <= self.bytes@.len()
        &&& self.bit_pos < 8
        &&& self.pos == self.bytes@.len() ==> self.bit_pos == 0
    }

    pub fn new(bytes: &'a [u8]) -> (r: Self)
        ensures
            r.wf(),
            r.spec_bits() == bytes_bits(bytes@),
            r.spec_pos() == 0,
    {
        BitReader { bytes, pos: 0, bit_pos: 0 }
    }

    /// The reading position never runs past the end of the bits.
    pub proof fn lemma_in_bounds(&self)
        requires
            self.wf(),
        ensures
            self.spec_pos() <= self.spec_bits().len(),
    {
        lemma_bytes_bits_len(self.bytes@);
    }

    /// How many whole bytes the bits consumed so far occupy: the byte the
    /// position sits in counts once any of its bits has been read.
    pub fn bytes_consumed(&self) -> (n: usize)
        requires
            self.wf(),
        ensures
            n == (self.spec_pos() + 7) / 8,
    {
        proof {
            if self.bit_pos == 0 {
                vstd::arithmetic::div_mod::lemma_fundamental_div_mod_converse(
                    8 * self.pos + 7,
                    8,
                    self.pos as int,
                    7,
                );
            } else {
                vstd::arithmetic::div_mod::lemma_fundamental_div_mod_converse(
                    8 * self.pos + self.bit_pos + 7,
                    8,
                    self.pos as int + 1,
                    self.bit_pos - 1,
                );
            }
        }
        let _len = self.bytes.len();
        if self.bit_pos > 0 {
            self.pos + 1
        } else {
            self.pos
        }
    }

    /// Returns the next bit, or `None` once the slice is exhausted.
    pub fn read_bit(&mut self) -> (r: Option<bool>)
        requires
            old(self).wf(),
        ensures
            final(self).wf(),
            final(self).spec_bits() == old(self).spec_bits(),
            old(self).spec_pos() < old(self).spec_bits().len() ==> {
                &&& r == Some(old(self).spec_bits()[old(self).spec_pos() as int])
                &&& final(self).spec_pos() == old(self).spec_pos() + 1
            },
            old(self).spec_pos() >= old(self).spec_bits().len() ==> {
                &&& r is None
                &&& final(self).spec_pos() == old(self).spec_pos()
            },
    {
        proof {
            lemma_bytes_bits_len(self.bytes@);
        }
        if self.pos >= self.bytes.len() {
            return None;
        }
        let byte = self.bytes[self.pos];
        let bit = (byte & (1u8 << ((7 - self.bit_pos) as u8))) != 0;
        proof {
            let i = self.spec_pos() as int;
            assert(i < 8 * self.bytes@.len()) by (nonlinear_arith)
                requires
                    i == 8 * self.pos + self.bit_pos,
                    self.pos < self.bytes@.len(),
                    self.bit_pos < 8;
            lemma_bytes_bits_index(self.bytes@, i);
            assert(i / 8 == self.pos && i % 8 == self.bit_pos) by (nonlinear_arith)
                requires
                    i == 8 * self.pos + self.bit_pos,
                    0 <= self.bit_pos < 8,
                    self.pos >= 0;
            let k = self.bit_pos;
            assert(((byte & (1u8 << ((7 - k) as u8))) != 0) == (((byte >> ((7 - k) as u8)) & 1u8)
                == 1u8)) by (bit_vector)
                requires k < 8;
        }
        self.bit_pos = self.bit_pos + 1;
        if self.bit_pos == 8 {
            self.pos = self.pos + 1;
            self.bit_pos = 0;
        }
        Some(bit)
    }
}

} // verus!

