//! Encoding: each primitive appends its wire form to a buffer.
use crate::bits::{
    bytes_bits, lemma_octet_count_u64, lemma_uint_bits_index, lemma_uint_bits_len,
    lemma_width_127_16383, lemma_width_leading_zeros, octet_count, uint_bits,
};
use crate::buffer::BitBuffer;
use crate::error::Error;
use crate::per::{
    enc_choice, enc_choice_ext, enc_int, enc_int_max, enc_length, enc_normally_small, enc_octets,
    enc_utf8, range_width, BYTE_LEN, UPER_LENGTH_DET_L1, UPER_LENGTH_DET_L2,
};
use vstd::bits::lemma_u64_shr_is_div;
use vstd::prelude::*;
use vstd::utf8::encode_utf8;

verus! {

/// Room is left for `n` more bits after `written`.
pub open spec fn room_for(written: Seq<bool>, n: nat) -> bool {
    written.len() + n <= usize::MAX
}

/// The least number of octets, at least one, that hold `v`.
fn octet_len(v: u64) -> (r: usize)
    ensures
        r == octet_count(v as nat),
        r <= 8,
    decreases v,
{
    if v < 256 {
        1
    } else {
        assert((v >> 8u64) == v / 256) by (bit_vector);
        proof {
            lemma_octet_count_u64(v);
        }
        1 + octet_len(v >> 8)
    }
}

/// The encoding side: a sink of single bits, and every primitive built on it.
pub trait Writer {
    /// The bits written so far.
    spec fn written(&self) -> Seq<bool>;

    /// The writer's own invariant.
    spec fn writable(&self) -> bool;

    /// Appends one bit.
    fn write_bit(&mut self, bit: bool) -> (r: Result<(), Error>)
        requires
            old(self).writable(),
            room_for(old(self).written(), 1),
        ensures
            final(self).writable(),
            r is Ok,
            final(self).written() == old(self).written().push(bit),
    ;

    /// Appends the `w` low bits of `v`, most significant first.
    fn write_uint(&mut self, v: u64, w: u32)
        requires
            old(self).writable(),
            w <= 64,
            room_for(old(self).written(), w as nat),
        ensures
            final(self).writable(),
            final(self).written() == old(self).written() + uint_bits(v as nat, w as nat),
    {
        let mut k: u32 = 0;
        proof {
            lemma_uint_bits_len(v as nat, w as nat);
        }
        while k < w
            invariant
                self.writable(),
                k <= w <= 64,
                room_for(old(self).written(), w as nat),
                uint_bits(v as nat, w as nat).len() == w,
                self.written() == old(self).written() + uint_bits(v as nat, w as nat).take(k as int),
            decreases w - k,
        {
            let sh = (w - 1 - k) as u64;
            let y = v >> sh;
            let bit = y & 1 == 1;
            proof {
                lemma_uint_bits_index(v as nat, w as nat, k as int);
                lemma_u64_shr_is_div(v, sh);
                assert((y & 1u64 == 1u64) == (y % 2 == 1)) by (bit_vector);
            }
            let _ = self.write_bit(bit);
            k += 1;
            assert(self.written() =~= old(self).written() + uint_bits(v as nat, w as nat).take(
                k as int,
            ));
        }
        assert(uint_bits(v as nat, w as nat).take(w as int) =~= uint_bits(v as nat, w as nat));
    }

    /// Appends `value` as a constrained integer of the inclusive `range`.
    fn write_int(&mut self, value: i64, range: (i64, i64)) -> (r: Result<(), Error>)
        requires
            old(self).writable(),
            room_for(old(self).written(), 64),
        ensures
            final(self).writable(),
            final(self).written().len() <= old(self).written().len() + 64,
            r is Ok <==> range.0 <= value <= range.1,
            r is Ok ==> final(self).written() == old(self).written() + enc_int(
                value as int,
                range.0 as int,
                range.1 as int,
            ),
            r is Err ==> r == Err::<(), Error>(Error::ValueNotInRange(value, range.0, range.1))
                && final(self).written() == old(self).written(),
    {
        let (lower, upper) = range;
        if value > upper || value < lower {
            return Err(Error::ValueNotInRange(value, lower, upper));
        }
        let delta = (value as i128 - lower as i128) as u64;
        let span = (upper as i128 - lower as i128) as u64;
        let w = 64 - span.leading_zeros();
        proof {
            lemma_width_leading_zeros(span);
            lemma_uint_bits_len(delta as nat, w as nat);
        }
        self.write_uint(delta, w);
        Ok(())
    }

    /// Appends a length determinant for `length`.
    fn write_length_determinant(&mut self, length: usize) -> (r: Result<(), Error>)
        requires
            old(self).writable(),
            room_for(old(self).written(), 16),
        ensures
            final(self).writable(),
            final(self).written().len() <= old(self).written().len() + 16,
            r is Ok <==> length <= UPER_LENGTH_DET_L2,
            r is Ok ==> final(self).written() == old(self).written() + enc_length(length as nat),
            r is Err ==> r->Err_0 is UnsupportedOperation && final(self).written() == old(self).written(),
    {
        proof {
            lemma_width_127_16383();
            lemma_uint_bits_len(length as nat, 7);
            lemma_uint_bits_len(length as nat, 14);
        }
        if length <= UPER_LENGTH_DET_L1 as usize {
            let _ = self.write_bit(false);
            self.write_uint(length as u64, 7);
            assert(final(self).written() =~= old(self).written() + enc_length(length as nat));
            Ok(())
        } else if length <= UPER_LENGTH_DET_L2 as usize {
            let _ = self.write_bit(true);
            let _ = self.write_bit(false);
            self.write_uint(length as u64, 14);
            assert(final(self).written() =~= old(self).written() + enc_length(length as nat));
            Ok(())
        } else {
            Err(
                Error::UnsupportedOperation(
                    "Writing length determinant for lengths > 16383 is unsupported".to_owned(),
                ),
            )
        }
    }

    /// Appends a non-negative integer in its unconstrained form.
    fn write_int_max(&mut self, value: u64) -> (r: Result<(), Error>)
        requires
            old(self).writable(),
            room_for(old(self).written(), 80),
        ensures
            final(self).writable(),
            final(self).written().len() <= old(self).written().len() + 80,
            r is Ok <==> value <= i64::MAX,
            r is Ok ==> final(self).written() == old(self).written() + enc_int_max(value as nat),
            r is Err ==> r == Err::<(), Error>(Error::ValueNotInRange(value as i64, 0, i64::MAX))
                && final(self).written() == old(self).written(),
    {
        if value > i64::MAX as u64 {
            return Err(Error::ValueNotInRange(#[verifier::truncate] (value as i64), 0, i64::MAX));
        }
        let byte_len = octet_len(value);
        proof {
            lemma_octet_count_u64(value);
        }
        proof {
            lemma_width_127_16383();
            lemma_uint_bits_len(byte_len as nat, 7);
        }
        let _ = self.write_length_determinant(byte_len);
        self.write_uint(value, (byte_len * BYTE_LEN) as u32);
        proof {
            lemma_uint_bits_len(value as nat, 8 * byte_len as nat);
        }
        assert(final(self).written() =~= old(self).written() + enc_int_max(value as nat));
        Ok(())
    }

    /// Appends a normally-small non-negative integer.
    fn write_int_normally_small(&mut self, value: u64) -> (r: Result<(), Error>)
        requires
            old(self).writable(),
            room_for(old(self).written(), 81),
        ensures
            final(self).writable(),
            final(self).written().len() <= old(self).written().len() + 81,
            r is Ok <==> value <= i64::MAX,
            r is Ok ==> final(self).written() == old(self).written() + enc_normally_small(value as nat),
            r is Err ==> r == Err::<(), Error>(Error::ValueNotInRange(value as i64, 0, i64::MAX))
                && final(self).written() == old(self).written(),
    {
        if value <= 63 {
            let _ = self.write_bit(false);
            self.write_uint(value, 6);
            proof {
                lemma_uint_bits_len(value as nat, 6);
            }
            assert(final(self).written() =~= old(self).written() + enc_normally_small(value as nat));
            Ok(())
        } else if value > i64::MAX as u64 {
            Err(Error::ValueNotInRange(#[verifier::truncate] (value as i64), 0, i64::MAX))
        } else {
            let _ = self.write_bit(true);
            let _ = self.write_int_max(value);
            assert(final(self).written() =~= old(self).written() + enc_normally_small(value as nat));
            Ok(())
        }
    }

    /// Appends `bit_length` bits of `buffer`, starting at bit `bit_offset`.
    fn write_bit_string(&mut self, buffer: &[u8], bit_offset: usize, bit_length: usize) -> (r:
        Result<(), Error>)
        requires
            old(self).writable(),
            bit_offset + bit_length <= 8 * buffer@.len() ==> room_for(old(self).written(), bit_length as nat),
        ensures
            final(self).writable(),
            final(self).written().len() <= old(self).written().len() + bit_length,
            r is Ok <==> bit_offset + bit_length <= 8 * buffer@.len(),
            r is Ok ==> final(self).written() == old(self).written() + bytes_bits(buffer@).subrange(
                bit_offset as int,
                bit_offset + bit_length,
            ),
            r is Err ==> r == Err::<(), Error>(Error::InsufficientDataInSourceBuffer)
                && final(self).written() == old(self).written(),
    {
        let total: u128 = buffer.len() as u128 * 8;
        if bit_offset as u128 + bit_length as u128 > total {
            return Err(Error::InsufficientDataInSourceBuffer);
        }
        let ghost src = bytes_bits(buffer@);
        let mut j: usize = 0;
        while j < bit_length
            invariant
                self.writable(),
                j <= bit_length,
                bit_offset + bit_length <= 8 * buffer@.len(),
                room_for(old(self).written(), bit_length as nat),
                self.written() == old(self).written() + src.subrange(bit_offset as int, bit_offset + j),
                self.written().len() == old(self).written().len() + j,
                src == bytes_bits(buffer@),
            decreases bit_length - j,
        {
            let bit = bit_offset as u128 + j as u128;
            let byte_pos = (bit / 8) as usize;
            let bit_pos = (bit % 8) as u8;
            let b = (buffer[byte_pos] >> (7 - bit_pos)) & 1u8 == 1u8;
            assert(byte_pos == bit as int / 8 && bit_pos == bit as int % 8);
            assert(b == src[bit as int]);
            let _ = self.write_bit(b);
            j += 1;
            assert(self.written() =~= old(self).written() + src.subrange(bit_offset as int, bit_offset + j));
        }
        Ok(())
    }

    /// Appends the bits of `buffer` from bit `bit_offset` to its end.
    fn write_bit_string_till_end(&mut self, buffer: &[u8], bit_offset: usize) -> (r: Result<
        (),
        Error,
    >)
        requires
            old(self).writable(),
            bit_offset <= 8 * buffer@.len() ==> room_for(old(self).written(), 
                (8 * buffer@.len() - bit_offset) as nat,
            ),
        ensures
            final(self).writable(),
            bit_offset <= 8 * buffer@.len() ==> final(self).written().len() <= old(
                self,
            ).written().len() + 8 * buffer@.len() - bit_offset,
            r is Ok <==> bit_offset <= 8 * buffer@.len(),
            r is Ok ==> final(self).written() == old(self).written() + bytes_bits(buffer@).skip(
                bit_offset as int,
            ),
            r is Err ==> r == Err::<(), Error>(Error::InsufficientDataInSourceBuffer)
                && final(self).written() == old(self).written(),
    {
        let total: u128 = buffer.len() as u128 * 8;
        if bit_offset as u128 > total {
            return Err(Error::InsufficientDataInSourceBuffer);
        }
        let len = (total - bit_offset as u128) as usize;
        let r = self.write_bit_string(buffer, bit_offset, len);
        assert(bytes_bits(buffer@).skip(bit_offset as int) =~= bytes_bits(buffer@).subrange(
            bit_offset as int,
            bit_offset + len,
        ));
        r
    }

    /// Appends an octet string: its length, constrained by `length_range` or
    /// as a length determinant, then its octets.
    fn write_octet_string(&mut self, string: &[u8], length_range: Option<(i64, i64)>) -> (r:
        Result<(), Error>)
        requires
            old(self).writable(),
            string@.len() <= i64::MAX,
            room_for(old(self).written(), 64 + 8 * string@.len()),
        ensures
            final(self).writable(),
            final(self).written().len() <= old(self).written().len() + 64 + 8 * string@.len(),
            r is Ok <==> match length_range {
                Some(range) => range.0 <= string@.len() <= range.1,
                None => string@.len() <= UPER_LENGTH_DET_L2,
            },
            r is Ok ==> final(self).written() == old(self).written() + enc_octets(string@, length_range),
            r is Err ==> final(self).written() == old(self).written() && match length_range {
                Some(range) => r == Err::<(), Error>(
                    Error::ValueNotInRange(string@.len() as i64, range.0, range.1),
                ),
                None => r->Err_0 is UnsupportedOperation,
            },
    {
        proof {
            lemma_width_127_16383();
            lemma_uint_bits_len(string@.len(), 7);
            lemma_uint_bits_len(string@.len(), 14);
        }
        if let Some((min, max)) = length_range {
            proof {
                if min <= max {
                    lemma_width_leading_zeros((max - min) as u64);
                    lemma_uint_bits_len((string@.len() - min) as nat, range_width(min as int, max as int));
                }
            }
            let r = self.write_int(string.len() as i64, (min, max));
            if r.is_err() {
                return r;
            }
        } else {
            let r = self.write_length_determinant(string.len());
            if r.is_err() {
                return r;
            }
        }
        let ghost mid = self.written();
        let _ = self.write_bit_string_till_end(string, 0);
        assert(bytes_bits(string@).skip(0) == bytes_bits(string@));
        assert(final(self).written() =~= old(self).written() + enc_octets(string@, length_range));
        Ok(())
    }

    /// Appends a UTF-8 string: its length in bytes, then its bytes.
    fn write_utf8_string(&mut self, value: &str) -> (r: Result<(), Error>)
        requires
            old(self).writable(),
            room_for(old(self).written(), 64 + 8 * encode_utf8(value@).len()),
        ensures
            final(self).writable(),
            final(self).written().len() <= old(self).written().len() + 64 + 8 * encode_utf8(value@).len(),
            r is Ok <==> encode_utf8(value@).len() <= UPER_LENGTH_DET_L2,
            r is Ok ==> final(self).written() == old(self).written() + enc_utf8(value@),
            r is Err ==> r->Err_0 is UnsupportedOperation && final(self).written() == old(self).written(),
    {
        let bytes = value.as_bytes();
        self.write_octet_string(bytes, None)
    }

    /// Appends the index of the chosen variant among `no_of_default_variants`.
    fn write_choice_index(&mut self, index: u64, no_of_default_variants: u64) -> (r: Result<
        (),
        Error,
    >)
        requires
            old(self).writable(),
            no_of_default_variants <= i64::MAX,
            room_for(old(self).written(), 64),
        ensures
            final(self).writable(),
            final(self).written().len() <= old(self).written().len() + 64,
            r is Ok <==> index < no_of_default_variants,
            r is Ok ==> final(self).written() == old(self).written() + enc_choice(
                index as nat,
                no_of_default_variants as nat,
            ),
            r is Err ==> r == Err::<(), Error>(
                Error::ValueNotInRange(index as i64, 0, (no_of_default_variants - 1) as i64),
            ) && final(self).written() == old(self).written(),
    {
        let upper = no_of_default_variants as i64 - 1;
        if index > i64::MAX as u64 {
            return Err(Error::ValueNotInRange(#[verifier::truncate] (index as i64), 0, upper));
        }
        proof {
            if 0 <= upper {
                lemma_width_leading_zeros(upper as u64);
            }
        }
        self.write_int(index as i64, (0, upper))
    }

    /// Appends a choice index with an extension marker: root variants below
    /// `no_of_default_variants`, extensions as a normally-small offset.
    fn write_choice_index_extensible(&mut self, index: u64, no_of_default_variants: u64) -> (r:
        Result<(), Error>)
        requires
            old(self).writable(),
            no_of_default_variants <= i64::MAX,
            room_for(old(self).written(), 82),
        ensures
            final(self).writable(),
            final(self).written().len() <= old(self).written().len() + 82,
            r is Ok <==> index - no_of_default_variants <= i64::MAX,
            r is Ok ==> final(self).written() == old(self).written() + enc_choice_ext(
                index as nat,
                no_of_default_variants as nat,
            ),
            r is Err ==> r is Err && r->Err_0 is ValueNotInRange && final(self).written() == old(
                self,
            ).written(),
    {
        if index >= no_of_default_variants {
            let offset = index - no_of_default_variants;
            if offset > i64::MAX as u64 {
                return Err(Error::ValueNotInRange(#[verifier::truncate] (offset as i64), 0, i64::MAX));
            }
            let _ = self.write_bit(true);
            let _ = self.write_int_normally_small(offset);
            assert(final(self).written() =~= old(self).written() + enc_choice_ext(
                index as nat,
                no_of_default_variants as nat,
            ));
            Ok(())
        } else {
            let _ = self.write_bit(false);
            proof {
                lemma_width_leading_zeros((no_of_default_variants - 1) as u64);
            }
            let _ = self.write_choice_index(index, no_of_default_variants);
            assert(final(self).written() =~= old(self).written() + enc_choice_ext(
                index as nat,
                no_of_default_variants as nat,
            ));
            Ok(())
        }
    }

    /// Appends the octets of a separately written buffer, whole octets with
    /// their padding, after their count as a length determinant.
    fn write_substring_with_length_determinant_prefix(&mut self, inner: &BitBuffer) -> (r:
        Result<(), Error>)
        requires
            old(self).writable(),
            inner.wf(),
            room_for(old(self).written(), 64 + 8 * inner.bytes().len()),
        ensures
            final(self).writable(),
            final(self).written().len() <= old(self).written().len() + 64 + 8 * inner.bytes().len(),
            r is Ok <==> inner.bytes().len() <= UPER_LENGTH_DET_L2,
            r is Ok ==> final(self).written() == old(self).written() + enc_octets(inner.bytes(), None),
            r is Err ==> r->Err_0 is UnsupportedOperation && final(self).written() == old(self).written(),
    {
        let content = inner.content();
        proof {
            inner.lemma_bytes_hold_bits();
            lemma_octet_count_u64(0);
        }
        self.write_octet_string(content.as_slice(), None)
    }
}

} // verus!
