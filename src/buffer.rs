//! A growable bit container with independent read and write cursors.
use crate::bits::{byte_bit, bytes_bits};
use crate::error::Error;
use crate::reader::Reader;
use crate::writer::Writer;
use vstd::prelude::*;

verus! {

/// Bits stored MSB first in ascending octets; bits `[read, write)` are unread.
pub struct BitBuffer {
    buffer: Vec<u8>,
    write_position: usize,
    read_position: usize,
}

/// Octets needed for `n` bits.
pub open spec fn octets_for(n: nat) -> nat {
    (n + 7) / 8
}

pub(crate) proof fn lemma_set_bit(b: u8, j: u8, k: u8)
    requires
        j < 8,
        k < 8,
    ensures
        byte_bit(b | (0x80u8 >> j), k as int) == (k == j || byte_bit(b, k as int)),
        byte_bit(b & !(0x80u8 >> j), k as int) == (k != j && byte_bit(b, k as int)),
        !byte_bit(0u8, k as int),
{
    assert((((b | (0x80u8 >> j)) >> ((7 - k) as u8)) & 1u8 == 1u8) == (k == j || ((b >> ((7 - k) as u8)) & 1u8)
        == 1u8)) by (bit_vector)
        requires
            j < 8,
            k < 8,
    ;
    assert((((b & !(0x80u8 >> j)) >> ((7 - k) as u8)) & 1u8 == 1u8) == (k != j && ((b >> ((7 - k) as u8)) & 1u8)
        == 1u8)) by (bit_vector)
        requires
            j < 8,
            k < 8,
    ;
    assert(((0u8 >> ((7 - k) as u8)) & 1u8) != 1u8) by (bit_vector)
        requires
            k < 8,
    ;
}

/// Two octets with the same eight bits are equal.
proof fn lemma_byte_from_bits(a: u8, b: u8)
    requires
        forall|k: int| 0 <= k < 8 ==> byte_bit(a, k) == byte_bit(b, k),
    ensures
        a == b,
{
    assert(byte_bit(a, 0) == byte_bit(b, 0));
    assert(byte_bit(a, 1) == byte_bit(b, 1));
    assert(byte_bit(a, 2) == byte_bit(b, 2));
    assert(byte_bit(a, 3) == byte_bit(b, 3));
    assert(byte_bit(a, 4) == byte_bit(b, 4));
    assert(byte_bit(a, 5) == byte_bit(b, 5));
    assert(byte_bit(a, 6) == byte_bit(b, 6));
    assert(byte_bit(a, 7) == byte_bit(b, 7));
    assert(a == b) by (bit_vector)
        requires
            ((a >> 7u8) & 1u8 == 1u8) == ((b >> 7u8) & 1u8 == 1u8),
            ((a >> 6u8) & 1u8 == 1u8) == ((b >> 6u8) & 1u8 == 1u8),
            ((a >> 5u8) & 1u8 == 1u8) == ((b >> 5u8) & 1u8 == 1u8),
            ((a >> 4u8) & 1u8 == 1u8) == ((b >> 4u8) & 1u8 == 1u8),
            ((a >> 3u8) & 1u8 == 1u8) == ((b >> 3u8) & 1u8 == 1u8),
            ((a >> 2u8) & 1u8 == 1u8) == ((b >> 2u8) & 1u8 == 1u8),
            ((a >> 1u8) & 1u8 == 1u8) == ((b >> 1u8) & 1u8 == 1u8),
            ((a >> 0u8) & 1u8 == 1u8) == ((b >> 0u8) & 1u8 == 1u8),
    ;
}

proof fn lemma_keep_high_bits(b: u8, keep: u8, k: u8)
    requires
        0 < keep < 8,
        k < 8,
    ensures
        byte_bit(b & !(0xFFu8 >> keep), k as int) == (k < keep && byte_bit(b, k as int)),
{
    assert((((b & !(0xFFu8 >> keep)) >> ((7 - k) as u8)) & 1u8 == 1u8) == (k < keep && ((b >> ((7
        - k) as u8)) & 1u8) == 1u8)) by (bit_vector)
        requires
            0 < keep < 8,
            k < 8,
    ;
}

impl BitBuffer {
    /// The written bits, in stream order.
    pub closed spec fn bits(&self) -> Seq<bool> {
        Seq::new(self.write_position as nat, |i: int| byte_bit(self.buffer@[i / 8], i % 8))
    }

    /// How many of the written bits have been read.
    pub closed spec fn consumed(&self) -> nat {
        self.read_position as nat
    }

    /// The octets that hold the written bits, padded with zero bits.
    pub closed spec fn bytes(&self) -> Seq<u8> {
        self.buffer@.take(octets_for(self.write_position as nat) as int)
    }

    pub closed spec fn wf(&self) -> bool {
        &&& self.read_position <= self.write_position
        &&& self.write_position <= 8 * self.buffer@.len()
        &&& forall|i: int|
            self.write_position <= i < 8 * octets_for(self.write_position as nat) ==> !byte_bit(
                #[trigger] self.buffer@[i / 8],
                i % 8,
            )
    }

    /// An empty buffer.
    pub fn new() -> (r: BitBuffer)
        ensures
            r.wf(),
            r.bits() == Seq::<bool>::empty(),
            r.consumed() == 0,
    {
        BitBuffer { buffer: Vec::new(), write_position: 0, read_position: 0 }
    }

    /// Number of written bits.
    pub fn bit_len(&self) -> (r: usize)
        requires
            self.wf(),
        ensures
            r == self.bits().len(),
    {
        self.write_position
    }

    /// Number of octets that hold the written bits.
    pub fn byte_len(&self) -> (r: usize)
        requires
            self.wf(),
        ensures
            r == octets_for(self.bits().len()),
            r == self.bytes().len(),
    {
        let r = self.write_position / 8 + if self.write_position % 8 == 0 {
            0usize
        } else {
            1usize
        };
        assert(r == octets_for(self.write_position as nat));
        r
    }

    /// Number of written bits not yet read.
    pub fn bits_remaining(&self) -> (r: usize)
        requires
            self.wf(),
        ensures
            r == self.unread().len(),
            r == self.bits().len() - self.consumed(),
    {
        self.write_position - self.read_position
    }

    /// A buffer holding the first `bit_length` bits of `buffer`, none read.
    pub fn from_bits(buffer: Vec<u8>, bit_length: usize) -> (r: BitBuffer)
        requires
            bit_length <= 8 * buffer@.len(),
        ensures
            r.wf(),
            r.bits() == bytes_bits(buffer@).take(bit_length as int),
            r.consumed() == 0,
    {
        let mut buffer = buffer;
        let ghost src = buffer@;
        if bit_length % 8 != 0 {
            let k = bit_length / 8;
            let keep = (bit_length % 8) as u8;
            let b = buffer[k];
            buffer.set(k, b & !(0xFFu8 >> keep));
            proof {
                assert forall|j: int| 0 <= j < 8 implies byte_bit(buffer@[k as int], j) == (j < keep
                    && byte_bit(b, j)) by {
                    lemma_keep_high_bits(b, keep, j as u8);
                }
                assert forall|i: int|
                    bit_length <= i < 8 * octets_for(bit_length as nat) implies !byte_bit(
                    #[trigger] buffer@[i / 8],
                    i % 8,
                ) by {
                    assert(i / 8 == k && i % 8 >= keep);
                    lemma_keep_high_bits(b, keep, (i % 8) as u8);
                }
            }
        }
        let r = BitBuffer { buffer, write_position: bit_length, read_position: 0 };
        assert(r.bits() =~= bytes_bits(src).take(bit_length as int));
        r
    }

    /// The octets that hold the written bits; bits past the end are zero.
    pub fn content(&self) -> (r: Vec<u8>)
        requires
            self.wf(),
        ensures
            r@ == self.bytes(),
            r@.len() == octets_for(self.bits().len()),
    {
        let n = self.byte_len();
        let mut r: Vec<u8> = Vec::new();
        let mut i: usize = 0;
        while i < n
            invariant
                n == self.bytes().len(),
                i <= n,
                self.wf(),
                r@ == self.bytes().take(i as int),
            decreases n - i,
        {
            r.push(self.buffer[i]);
            i += 1;
            assert(r@ =~= self.bytes().take(i as int));
        }
        assert(r@ =~= self.bytes());
        r
    }

    /// The octets of a buffer hold its bits, followed by the zero padding.
    pub proof fn lemma_bytes_hold_bits(&self)
        requires
            self.wf(),
        ensures
            self.bytes().len() == octets_for(self.bits().len()),
            bytes_bits(self.bytes()).take(self.bits().len() as int) == self.bits(),
            forall|i: int|
                self.bits().len() <= i < bytes_bits(self.bytes()).len() ==> !bytes_bits(
                    self.bytes(),
                )[i],
    {
        assert(bytes_bits(self.bytes()).take(self.bits().len() as int) =~= self.bits());
        assert forall|i: int| self.bits().len() <= i < bytes_bits(self.bytes()).len() implies !bytes_bits(
            self.bytes(),
        )[i] by {
            assert(self.bytes()[i / 8] == self.buffer@[i / 8]);
        }
    }

    /// Buffers with the same bits have the same octets.
    pub proof fn lemma_bytes_follow_bits(a: &BitBuffer, b: &BitBuffer)
        requires
            a.wf(),
            b.wf(),
            a.bits() == b.bits(),
        ensures
            a.bytes() == b.bytes(),
    {
        a.lemma_bytes_hold_bits();
        b.lemma_bytes_hold_bits();
        let n = a.bits().len();
        assert forall|k: int| 0 <= k < a.bytes().len() implies a.bytes()[k] == b.bytes()[k] by {
            assert forall|j: int| 0 <= j < 8 implies byte_bit(a.bytes()[k], j) == byte_bit(
                b.bytes()[k],
                j,
            ) by {
                let i = 8 * k + j;
                assert(i / 8 == k && i % 8 == j);
                assert(bytes_bits(a.bytes())[i] == byte_bit(a.bytes()[k], j));
                assert(bytes_bits(b.bytes())[i] == byte_bit(b.bytes()[k], j));
                if i < n {
                    assert(bytes_bits(a.bytes())[i] == a.bits()[i]);
                    assert(bytes_bits(b.bytes())[i] == b.bits()[i]);
                }
            }
            lemma_byte_from_bits(a.bytes()[k], b.bytes()[k]);
        }
        assert(a.bytes() =~= b.bytes());
    }

    /// A buffer whose bits are those of whole octets `b` holds exactly `b`.
    pub proof fn lemma_bytes_of_octets(&self, b: Seq<u8>)
        requires
            self.wf(),
            self.bits() == bytes_bits(b),
        ensures
            self.bytes() == b,
    {
        self.lemma_bytes_hold_bits();
        assert(self.bytes().len() == b.len());
        assert forall|k: int| 0 <= k < b.len() implies self.bytes()[k] == b[k] by {
            assert forall|j: int| 0 <= j < 8 implies byte_bit(self.bytes()[k], j) == byte_bit(
                b[k],
                j,
            ) by {
                let i = 8 * k + j;
                assert(i / 8 == k && i % 8 == j);
                assert(bytes_bits(self.bytes())[i] == self.bits()[i]);
            }
            lemma_byte_from_bits(self.bytes()[k], b[k]);
        }
        assert(self.bytes() =~= b);
    }
}

impl Default for BitBuffer {
    fn default() -> (r: BitBuffer)
        ensures
            r.wf(),
            r.bits() == Seq::<bool>::empty(),
            r.consumed() == 0,
    {
        BitBuffer::new()
    }
}

impl Writer for BitBuffer {
    open spec fn written(&self) -> Seq<bool> {
        self.bits()
    }

    open spec fn writable(&self) -> bool {
        self.wf()
    }

    /// Appends one bit.
    fn write_bit(&mut self, bit: bool) -> (r: Result<(), Error>)
    {
        let ghost old_buf = self.buffer@;
        let wp = self.write_position;
        let byte_pos = wp / 8;
        let bit_pos = (wp % 8) as u8;
        if bit_pos == 0 {
            if byte_pos == self.buffer.len() {
                self.buffer.push(0u8);
            } else {
                self.buffer.set(byte_pos, 0u8);
            }
        }
        let ghost mid_buf = self.buffer@;
        let old_byte = self.buffer[byte_pos];
        let mask: u8 = 0x80u8 >> bit_pos;
        let new_byte = if bit {
            old_byte | mask
        } else {
            old_byte & !mask
        };
        self.buffer.set(byte_pos, new_byte);
        self.write_position = wp + 1;
        proof {
            assert forall|k: int| 0 <= k < 8 implies byte_bit(new_byte, k) == if k == bit_pos {
                bit
            } else {
                byte_bit(old_byte, k)
            } by {
                lemma_set_bit(old_byte, bit_pos, k as u8);
            }
            if bit_pos == 0 {
                assert forall|k: int| 0 <= k < 8 implies !byte_bit(old_byte, k) by {
                    lemma_set_bit(0u8, 0u8, k as u8);
                }
            }
            let nb = self.bits();
            let ob = old(self).bits().push(bit);
            assert forall|i: int| 0 <= i < nb.len() implies nb[i] == ob[i] by {
                if i < wp {
                    assert(i / 8 < byte_pos || i % 8 < bit_pos);
                }
            }
            assert(nb == ob);
            assert forall|i: int|
                self.write_position <= i < 8 * octets_for(
                    self.write_position as nat,
                ) implies !byte_bit(#[trigger] self.buffer@[i / 8], i % 8) by {
                assert(i / 8 == byte_pos);
                assert(i % 8 > bit_pos);
                if bit_pos != 0 {
                    assert(old_buf[i / 8] == old_byte);
                }
            }
        }
        Ok(())
    }
}

impl Reader for BitBuffer {
    open spec fn unread(&self) -> Seq<bool> {
        self.bits().subrange(self.consumed() as int, self.bits().len() as int)
    }

    open spec fn readable(&self) -> bool {
        self.wf()
    }

    proof fn lemma_unread_fits(&self) {
    }

    /// Takes the next unread bit.
    fn read_bit(&mut self) -> (r: Result<bool, Error>)
    {
        if self.read_position >= self.write_position {
            return Err(Error::EndOfStream);
        }
        let rp = self.read_position;
        let byte = self.buffer[rp / 8];
        let bit = (byte >> (7 - (rp % 8) as u8)) & 1u8 == 1u8;
        self.read_position = rp + 1;
        Ok(bit)
    }
}

} // verus!
