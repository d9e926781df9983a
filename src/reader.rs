//! Decoding: each primitive takes its wire form from the unread bits.
use crate::bits::{
    bits_value, byte_bit, bytes_bits, lemma_bits_value_bound, lemma_width_127_16383,
    lemma_width_leading_zeros,
};
use crate::buffer::{lemma_set_bit, BitBuffer};
use crate::error::Error;
use crate::per::{
    dec_bytes, dec_choice, dec_choice_ext, dec_int, dec_int_max, dec_length, dec_normally_small,
    dec_octets, dec_utf8, fails_as, outcome, outcome_view, pack, taken, BYTE_LEN,
    UPER_LENGTH_DET_L1, UPER_LENGTH_DET_L2,
};
use vstd::arithmetic::power2::{lemma2_to64, lemma2_to64_rest, lemma_pow2_strictly_increases};
use vstd::prelude::*;
use vstd::utf8::{decode_utf8, valid_utf8};

verus! {

/// Relies on `String::from_utf8`: it accepts exactly the valid UTF-8 byte
/// sequences, and the string holds the characters they encode.
#[verifier::external_body]
fn string_from_utf8(bytes: Vec<u8>) -> (r: Option<String>)
    ensures
        r is Some <==> valid_utf8(bytes@),
        r is Some ==> r->Some_0@ == decode_utf8(bytes@),
{
    String::from_utf8(bytes).ok()
}

/// The bits of `b` with those from `off` on replaced by `s`.
pub open spec fn overwrite_bits(b: Seq<u8>, off: int, s: Seq<bool>) -> Seq<bool> {
    Seq::new(
        8 * b.len(),
        |i: int|
            if off <= i < off + s.len() {
                s[i - off]
            } else {
                bytes_bits(b)[i]
            },
    )
}

/// The decoding side: a source of single bits, and every primitive built on it.
pub trait Reader {
    /// The bits not yet read.
    spec fn unread(&self) -> Seq<bool>;

    /// The reader's own invariant.
    spec fn readable(&self) -> bool;

    /// A reader holds no more bits than `usize` counts.
    proof fn lemma_unread_fits(&self)
        requires
            self.readable(),
        ensures
            self.unread().len() <= usize::MAX,
    ;

    /// Takes the next unread bit.
    fn read_bit(&mut self) -> (r: Result<bool, Error>)
        requires
            old(self).readable(),
        ensures
            final(self).readable(),
            old(self).unread().len() == 0 ==> r == Err::<bool, Error>(Error::EndOfStream)
                && final(self).unread() == old(self).unread(),
            old(self).unread().len() > 0 ==> r == Ok::<bool, Error>(old(self).unread()[0])
                && final(self).unread() == old(self).unread().skip(1),
    ;

    /// Reads `w` bits as an unsigned value, most significant first.
    fn read_uint(&mut self, w: u32) -> (r: Result<u64, Error>)
        requires
            old(self).readable(),
            w <= 64,
        ensures
            final(self).readable(),
            old(self).unread().len() < w ==> r == Err::<u64, Error>(Error::EndOfStream),
            old(self).unread().len() >= w ==> r is Ok && r->Ok_0 == bits_value(
                old(self).unread().take(w as int),
            ) && final(self).unread() == old(self).unread().skip(w as int),
    {
        let ghost s = old(self).unread();
        let mut acc: u64 = 0;
        let mut k: u32 = 0;
        assert(s.skip(0) =~= s);
        while k < w
            invariant
                self.readable(),
                k <= w <= 64,
                s == old(self).unread(),
                s.len() >= k,
                self.unread() == s.skip(k as int),
                acc == bits_value(s.take(k as int)),
            decreases w - k,
        {
            let b = self.read_bit();
            let b = match b {
                Ok(b) => b,
                Err(e) => return Err(e),
            };
            proof {
                assert(s.take(k + 1).drop_last() =~= s.take(k as int));
                assert(self.unread() =~= s.skip(k + 1));
                lemma_bits_value_bound(s.take(k as int));
                lemma2_to64();
                lemma2_to64_rest();
                if k < 63 {
                    lemma_pow2_strictly_increases(k as nat, 63);
                }
            }
            acc = acc * 2 + if b {
                1
            } else {
                0
            };
            k += 1;
        }
        Ok(acc)
    }

    /// Reads a constrained integer of the inclusive `range`.
    fn read_int(&mut self, range: (i64, i64)) -> (r: Result<i64, Error>)
        requires
            old(self).readable(),
            range.0 <= range.1,
        ensures
            final(self).readable(),
            outcome(r, dec_int(old(self).unread(), range.0, range.1)),
            r is Ok ==> final(self).unread() == old(self).unread().skip(
                taken(dec_int(old(self).unread(), range.0, range.1)) as int,
            ),
    {
        let (lower, upper) = range;
        let span = (upper as i128 - lower as i128) as u64;
        proof {
            lemma_width_leading_zeros(span);
        }
        let w = 64 - span.leading_zeros();
        let v = self.read_uint(w);
        match v {
            Ok(v) => Ok(#[verifier::truncate] ((v as i128 + lower as i128) as i64)),
            Err(e) => Err(e),
        }
    }

    /// Reads a length determinant.
    fn read_length_determinant(&mut self) -> (r: Result<usize, Error>)
        requires
            old(self).readable(),
        ensures
            final(self).readable(),
            outcome(r, dec_length(old(self).unread())),
            r is Ok ==> final(self).unread() == old(self).unread().skip(
                taken(dec_length(old(self).unread())) as int,
            ),
    {
        proof {
            lemma_width_127_16383();
        }
        let ghost s = old(self).unread();
        let first = self.read_bit();
        let first = match first {
            Ok(b) => b,
            Err(e) => return Err(e),
        };
        proof {
            lemma2_to64();
            lemma_bits_value_bound(s.skip(1).take(7));
            lemma_bits_value_bound(s.skip(2).take(14));
        }
        if !first {
            let v = self.read_int((0, UPER_LENGTH_DET_L1));
            proof {
                if v is Ok {
                    assert(s.skip(1).skip(7) =~= s.skip(8));
                }
            }
            match v {
                Ok(v) => Ok(v as usize),
                Err(e) => Err(e),
            }
        } else {
            let second = self.read_bit();
            let second = match second {
                Ok(b) => b,
                Err(e) => return Err(e),
            };
            proof {
                assert(s.skip(1).skip(1) =~= s.skip(2));
            }
            if !second {
                let v = self.read_int((0, UPER_LENGTH_DET_L2));
                proof {
                    if v is Ok {
                        assert(s.skip(2).skip(14) =~= s.skip(16));
                    }
                }
                match v {
                    Ok(v) => Ok(v as usize),
                    Err(e) => Err(e),
                }
            } else {
                Err(
                    Error::UnsupportedOperation(
                        "Cannot read length determinant for other than i8 and i16".to_owned(),
                    ),
                )
            }
        }
    }

    /// Reads an unconstrained non-negative integer of at most eight octets.
    fn read_int_max(&mut self) -> (r: Result<u64, Error>)
        requires
            old(self).readable(),
        ensures
            final(self).readable(),
            outcome(r, dec_int_max(old(self).unread())),
            r is Ok ==> final(self).unread() == old(self).unread().skip(
                taken(dec_int_max(old(self).unread())) as int,
            ),
    {
        let len_in_bytes = self.read_length_determinant();
        let len_in_bytes = match len_in_bytes {
            Ok(l) => l,
            Err(e) => return Err(e),
        };
        if len_in_bytes > 8 {
            return Err(
                Error::UnsupportedOperation(
                    "Reading bigger data types than 64bit is not supported".to_owned(),
                ),
            );
        }
        self.read_uint((len_in_bytes * BYTE_LEN) as u32)
    }

    /// Reads a normally-small non-negative integer.
    fn read_int_normally_small(&mut self) -> (r: Result<u64, Error>)
        requires
            old(self).readable(),
        ensures
            final(self).readable(),
            outcome(r, dec_normally_small(old(self).unread())),
            r is Ok ==> final(self).unread() == old(self).unread().skip(
                taken(dec_normally_small(old(self).unread())) as int,
            ),
    {
        let large = self.read_bit();
        let large = match large {
            Ok(b) => b,
            Err(e) => return Err(e),
        };
        if !large {
            self.read_uint(6)
        } else {
            self.read_int_max()
        }
    }

    /// Reads `len` whole octets.
    fn read_octets(&mut self, len: usize) -> (r: Result<Vec<u8>, Error>)
        requires
            old(self).readable(),
        ensures
            final(self).readable(),
            outcome_view(r, dec_bytes(old(self).unread(), len as nat)),
            r is Ok ==> final(self).unread() == old(self).unread().skip(8 * len),
    {
        let ghost s = old(self).unread();
        let mut v: Vec<u8> = Vec::new();
        let mut i: usize = 0;
        while i < len
            invariant
                self.readable(),
                old(self).readable(),
                s == old(self).unread(),
                i <= len,
                s.len() >= 8 * i,
                self.unread() == s.skip(8 * i),
                v@ == pack(s.take(8 * i)),
            decreases len - i,
        {
            let b = self.read_uint(8);
            let b = match b {
                Ok(b) => b,
                Err(e) => return Err(e),
            };
            proof {
                lemma2_to64();
                lemma_bits_value_bound(s.subrange(8 * i, 8 * i + 8));
                assert(s.skip(8 * i).take(8) =~= s.subrange(8 * i, 8 * i + 8));
            }
            v.push(b as u8);
            i += 1;
            proof {
                let t = s.take(8 * i);
                let t0 = s.take(8 * (i - 1));
                assert forall|k: int| 0 <= k < i implies #[trigger] pack(t)[k] == v@[k] by {
                    assert(t.subrange(8 * k, 8 * k + 8) =~= s.subrange(8 * k, 8 * k + 8));
                    if k < i - 1 {
                        assert(t0.subrange(8 * k, 8 * k + 8) =~= s.subrange(8 * k, 8 * k + 8));
                        assert(v@[k] == pack(t0)[k]);
                    }
                }
                assert(v@ =~= pack(s.take(8 * i)));
            }
        }
        Ok(v)
    }

    /// Reads an octet string: its length, constrained by `length_range` or
    /// as a length determinant, then its octets.
    fn read_octet_string(&mut self, length_range: Option<(i64, i64)>) -> (r: Result<
        Vec<u8>,
        Error,
    >)
        requires
            old(self).readable(),
            length_range is Some ==> length_range->Some_0.0 <= length_range->Some_0.1,
        ensures
            final(self).readable(),
            outcome_view(r, dec_octets(old(self).unread(), length_range)),
            r is Ok ==> final(self).unread() == old(self).unread().skip(
                taken(dec_octets(old(self).unread(), length_range)) as int,
            ),
    {
        let len = if let Some((min, max)) = length_range {
            match self.read_int((min, max)) {
                Ok(l) => #[verifier::truncate] (l as usize),
                Err(e) => return Err(e),
            }
        } else {
            match self.read_length_determinant() {
                Ok(l) => l,
                Err(e) => return Err(e),
            }
        };
        self.read_octets(len)
    }

    /// Reads a UTF-8 string: its length in bytes, then its bytes.
    fn read_utf8_string(&mut self) -> (r: Result<String, Error>)
        requires
            old(self).readable(),
        ensures
            final(self).readable(),
            outcome_view(r, dec_utf8(old(self).unread())),
            r is Ok ==> final(self).unread() == old(self).unread().skip(
                taken(dec_utf8(old(self).unread())) as int,
            ),
    {
        let bytes = self.read_octet_string(None);
        let bytes = match bytes {
            Ok(b) => b,
            Err(e) => return Err(e),
        };
        match string_from_utf8(bytes) {
            Some(string) => Ok(string),
            None => Err(Error::InvalidUtf8String),
        }
    }

    /// Reads the index of the chosen variant among `no_of_default_variants`.
    fn read_choice_index(&mut self, no_of_default_variants: u64) -> (r: Result<u64, Error>)
        requires
            old(self).readable(),
            1 <= no_of_default_variants <= i64::MAX,
        ensures
            final(self).readable(),
            outcome(r, dec_choice(old(self).unread(), no_of_default_variants)),
            r is Ok ==> final(self).unread() == old(self).unread().skip(
                taken(dec_choice(old(self).unread(), no_of_default_variants)) as int,
            ),
    {
        match self.read_int((0, no_of_default_variants as i64 - 1)) {
            Ok(v) => Ok(#[verifier::truncate] (v as u64)),
            Err(e) => Err(e),
        }
    }

    /// Reads a choice index with an extension marker: extensions come after
    /// the `no_of_default_variants` root variants.
    fn read_choice_index_extensible(&mut self, no_of_default_variants: u64) -> (r: Result<
        u64,
        Error,
    >)
        requires
            old(self).readable(),
            1 <= no_of_default_variants <= i64::MAX,
        ensures
            final(self).readable(),
            outcome(r, dec_choice_ext(old(self).unread(), no_of_default_variants)),
            r is Ok ==> final(self).unread() == old(self).unread().skip(
                taken(dec_choice_ext(old(self).unread(), no_of_default_variants)) as int,
            ),
    {
        let extended = self.read_bit();
        let extended = match extended {
            Ok(b) => b,
            Err(e) => return Err(e),
        };
        if extended {
            match self.read_int_normally_small() {
                Ok(v) => Ok(#[verifier::truncate] ((v as u128 + no_of_default_variants as u128) as u64)),
                Err(e) => Err(e),
            }
        } else {
            self.read_choice_index(no_of_default_variants)
        }
    }

    /// Reads a length-prefixed run of octets into a buffer of its own.
    fn read_substring_with_length_determinant_prefix(&mut self) -> (r: Result<
        BitBuffer,
        Error,
    >)
        requires
            old(self).readable(),
        ensures
            final(self).readable(),
            fails_as(r, dec_octets(old(self).unread(), None)),
            r is Ok ==> final(self).unread() == old(self).unread().skip(
                taken(dec_octets(old(self).unread(), None)) as int,
            ) && r->Ok_0.wf() && r->Ok_0.consumed() == 0 && r->Ok_0.bits() == bytes_bits(
                dec_octets(old(self).unread(), None)->Value_0,
            ),
    {
        proof {
            crate::per::lemma_dec_length_bound(old(self).unread());
        }
        let bytes = self.read_octet_string(None);
        let bytes = match bytes {
            Ok(b) => b,
            Err(e) => return Err(e),
        };
        let bit_len = bytes.len() * BYTE_LEN;
        let inner = BitBuffer::from_bits(bytes, bit_len);
        assert(bytes_bits(bytes@).take(bit_len as int) =~= bytes_bits(bytes@));
        Ok(inner)
    }

    /// Reads `bit_length` bits into `buffer` from bit `bit_offset` on; the
    /// other bits of `buffer` keep their value.
    fn read_bit_string(&mut self, buffer: &mut [u8], bit_offset: usize, bit_length: usize) -> (r:
        Result<(), Error>)
        requires
            old(self).readable(),
        ensures
            final(self).readable(),
            final(buffer)@.len() == old(buffer)@.len(),
            bit_offset + bit_length > 8 * old(buffer)@.len() ==> r == Err::<(), Error>(
                Error::InsufficientSpaceInDestinationBuffer,
            ) && final(buffer)@ == old(buffer)@,
            bit_offset + bit_length <= 8 * old(buffer)@.len() && old(self).unread().len()
                < bit_length ==> r == Err::<(), Error>(Error::EndOfStream),
            bit_offset + bit_length <= 8 * old(buffer)@.len() && old(self).unread().len()
                >= bit_length ==> r is Ok && final(self).unread() == old(self).unread().skip(
                bit_length as int,
            ) && bytes_bits(final(buffer)@) == overwrite_bits(
                old(buffer)@,
                bit_offset as int,
                old(self).unread().take(bit_length as int),
            ),
    {
        let total: u128 = buffer.len() as u128 * 8;
        if bit_offset as u128 + bit_length as u128 > total {
            return Err(Error::InsufficientSpaceInDestinationBuffer);
        }
        let ghost s = old(self).unread();
        let ghost dst = old(buffer)@;
        let mut j: usize = 0;
        while j < bit_length
            invariant
                self.readable(),
                old(self).readable(),
                s == old(self).unread(),
                dst == old(buffer)@,
                j <= bit_length,
                bit_offset + bit_length <= 8 * dst.len(),
                s.len() >= j,
                self.unread() == s.skip(j as int),
                buffer@.len() == dst.len(),
                bytes_bits(buffer@) == overwrite_bits(dst, bit_offset as int, s.take(j as int)),
            decreases bit_length - j,
        {
            let b = self.read_bit();
            let b = match b {
                Ok(b) => b,
                Err(e) => return Err(e),
            };
            let bit = bit_offset as u128 + j as u128;
            let byte_pos = (bit / 8) as usize;
            let bit_pos = (bit % 8) as u8;
            let ghost before = buffer@;
            let old_byte = buffer[byte_pos];
            let mask: u8 = 0x80u8 >> bit_pos;
            let new_byte = if b {
                old_byte | mask
            } else {
                old_byte & !mask
            };
            buffer[byte_pos] = new_byte;
            j += 1;
            proof {
                assert forall|k: int| 0 <= k < 8 implies byte_bit(new_byte, k) == if k == bit_pos {
                    b
                } else {
                    byte_bit(old_byte, k)
                } by {
                    lemma_set_bit(old_byte, bit_pos, k as u8);
                }
                let want = overwrite_bits(dst, bit_offset as int, s.take(j as int));
                let had = overwrite_bits(dst, bit_offset as int, s.take(j - 1));
                assert forall|i: int| 0 <= i < 8 * dst.len() implies bytes_bits(buffer@)[i]
                    == want[i] by {
                    assert(bytes_bits(before)[i] == had[i]);
                    if i / 8 == byte_pos {
                        assert(buffer@[i / 8] == new_byte);
                        assert(before[i / 8] == old_byte);
                    } else {
                        assert(buffer@[i / 8] == before[i / 8]);
                    }
                }
                assert(bytes_bits(buffer@) =~= want);
            }
        }
        Ok(())
    }

    /// Reads bits into `buffer` from bit `bit_offset` to its end.
    fn read_bit_string_till_end(&mut self, buffer: &mut [u8], bit_offset: usize) -> (r: Result<
        (),
        Error,
    >)
        requires
            old(self).readable(),
        ensures
            final(self).readable(),
            final(buffer)@.len() == old(buffer)@.len(),
            bit_offset > 8 * old(buffer)@.len() ==> r == Err::<(), Error>(
                Error::InsufficientSpaceInDestinationBuffer,
            ) && final(buffer)@ == old(buffer)@,
            bit_offset <= 8 * old(buffer)@.len() && old(self).unread().len() < 8 * old(
                buffer,
            )@.len() - bit_offset ==> r == Err::<(), Error>(Error::EndOfStream),
            bit_offset <= 8 * old(buffer)@.len() && old(self).unread().len() >= 8 * old(
                buffer,
            )@.len() - bit_offset ==> r is Ok && final(self).unread() == old(self).unread().skip(
                8 * old(buffer)@.len() - bit_offset,
            ) && bytes_bits(final(buffer)@) == overwrite_bits(
                old(buffer)@,
                bit_offset as int,
                old(self).unread().take(8 * old(buffer)@.len() - bit_offset),
            ),
    {
        let total: u128 = buffer.len() as u128 * 8;
        if bit_offset as u128 > total {
            return Err(Error::InsufficientSpaceInDestinationBuffer);
        }
        let rest = total - bit_offset as u128;
        if rest > usize::MAX as u128 {
            // More bits than any buffer holds: reading runs out first.
            proof {
                old(self).lemma_unread_fits();
            }
            return Err(Error::EndOfStream);
        }
        self.read_bit_string(buffer, bit_offset, rest as usize)
    }
}

} // verus!
