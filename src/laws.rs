//! Properties of the wire format that hold for every value: each read takes
//! back exactly what the matching write appended, and the sizes are minimal.
use crate::bits::{
    byte_bit, bytes_bits, lemma_octet_count_u64, lemma_uint_bits_index, lemma_uint_bits_len,
    lemma_uint_round_trip, lemma_width_minimal, octet_count, uint_bits, width,
};
use crate::buffer::BitBuffer;
use crate::reader::Reader;
use crate::per::{
    dec_bytes, dec_choice, dec_choice_ext, dec_int, dec_int_max, dec_length, dec_normally_small,
    dec_octet_len, dec_octets, dec_uint, dec_utf8, enc_choice, enc_choice_ext, enc_int, enc_int_max,
    enc_length, enc_normally_small, enc_octet_len, enc_octets, enc_utf8, pack, range_width, Decoded,
};
use vstd::arithmetic::power2::{lemma2_to64, pow2};
use vstd::bits::lemma_u8_shr_is_div;
use vstd::prelude::*;
use vstd::utf8::{encode_utf8, encode_utf8_decode_utf8, encode_utf8_valid_utf8};

verus! {

/// The eight bits of an octet, MSB first, are its 8-bit unsigned form.
proof fn lemma_byte_uint_bits(x: u8)
    ensures
        uint_bits(x as nat, 8) == Seq::new(8, |j: int| byte_bit(x, j)),
{
    lemma_uint_bits_len(x as nat, 8);
    assert forall|j: int| 0 <= j < 8 implies uint_bits(x as nat, 8)[j] == byte_bit(x, j) by {
        lemma_uint_bits_index(x as nat, 8, j);
        let sh = (7 - j) as u8;
        lemma_u8_shr_is_div(x, sh);
        let y = x >> sh;
        assert((y & 1u8 == 1u8) == (y % 2 == 1)) by (bit_vector);
    }
    assert(uint_bits(x as nat, 8) =~= Seq::new(8, |j: int| byte_bit(x, j)));
}

/// Reading octets back from their bits gives the octets.
pub proof fn lemma_pack_bytes_bits(b: Seq<u8>)
    ensures
        pack(bytes_bits(b)) == b,
{
    let s = bytes_bits(b);
    assert forall|k: int| 0 <= k < b.len() implies #[trigger] pack(s)[k] == b[k] by {
        lemma_byte_uint_bits(b[k]);
        assert(s.subrange(8 * k, 8 * k + 8) =~= uint_bits(b[k] as nat, 8)) by {
            assert forall|j: int| 0 <= j < 8 implies s.subrange(8 * k, 8 * k + 8)[j] == byte_bit(
                b[k],
                j,
            ) by {
                assert((8 * k + j) / 8 == k && (8 * k + j) % 8 == j);
            }
        }
        lemma2_to64();
        lemma_uint_round_trip(b[k] as nat, 8);
    }
    assert(pack(s) =~= b);
}

/// Unsigned bits followed by anything read back as the value.
pub proof fn lemma_uint_read_back(v: nat, w: nat, rest: Seq<bool>)
    requires
        v < pow2(w),
    ensures
        dec_uint(uint_bits(v, w) + rest, w) == Decoded::Value(v, w),
{
    lemma_uint_bits_len(v, w);
    assert((uint_bits(v, w) + rest).take(w as int) =~= uint_bits(v, w));
    lemma_uint_round_trip(v, w);
}

/// A constrained integer takes exactly the width of its range: the fewest
/// bits that can tell all of its values apart, none for a single value.
pub proof fn lemma_int_width(value: i64, lower: i64, upper: i64)
    requires
        lower <= value <= upper,
    ensures
        enc_int(value as int, lower as int, upper as int).len() == range_width(
            lower as int,
            upper as int,
        ),
        upper - lower < pow2(range_width(lower as int, upper as int)),
        range_width(lower as int, upper as int) > 0 ==> pow2(
            (range_width(lower as int, upper as int) - 1) as nat,
        ) <= upper - lower,
        lower == upper ==> enc_int(value as int, lower as int, upper as int).len() == 0,
{
    lemma_uint_bits_len((value - lower) as nat, range_width(lower as int, upper as int));
    lemma_width_minimal((upper - lower) as nat);
}

/// A constrained integer in its range reads back as written.
pub proof fn lemma_int_round_trip(value: i64, lower: i64, upper: i64, rest: Seq<bool>)
    requires
        lower <= value <= upper,
    ensures
        dec_int(enc_int(value as int, lower as int, upper as int) + rest, lower, upper)
            == Decoded::Value(value, range_width(lower as int, upper as int)),
{
    lemma_width_minimal((upper - lower) as nat);
    lemma_uint_read_back((value - lower) as nat, range_width(lower as int, upper as int), rest);
}

/// Lengths up to 127 take one octet, up to 16383 two.
pub proof fn lemma_length_size(length: nat)
    ensures
        length <= 127 ==> enc_length(length).len() == 8,
        128 <= length ==> enc_length(length).len() == 16,
{
    lemma_uint_bits_len(length, 7);
    lemma_uint_bits_len(length, 14);
}

/// A length determinant reads back as written.
pub proof fn lemma_length_round_trip(length: usize, rest: Seq<bool>)
    requires
        length <= 16383,
    ensures
        dec_length(enc_length(length as nat) + rest) == Decoded::Value(
            length,
            enc_length(length as nat).len(),
        ),
{
    lemma2_to64();
    lemma_length_size(length as nat);
    let s = enc_length(length as nat) + rest;
    if length <= 127 {
        assert(s.skip(1) =~= uint_bits(length as nat, 7) + rest);
        lemma_uint_read_back(length as nat, 7, rest);
    } else {
        assert(s.skip(2) =~= uint_bits(length as nat, 14) + rest);
        lemma_uint_read_back(length as nat, 14, rest);
    }
}

/// An unconstrained integer reads back as written.
pub proof fn lemma_int_max_round_trip(value: u64, rest: Seq<bool>)
    ensures
        dec_int_max(enc_int_max(value as nat) + rest) == Decoded::Value(
            value,
            enc_int_max(value as nat).len(),
        ),
{
    lemma_octet_count_u64(value);
    let l = octet_count(value as nat);
    let tail = uint_bits(value as nat, 8 * l) + rest;
    assert(enc_int_max(value as nat) + rest =~= enc_length(l) + tail);
    lemma_length_round_trip(l as usize, tail);
    lemma_length_size(l);
    assert((enc_length(l) + tail).skip(enc_length(l).len() as int) =~= tail);
    lemma_uint_read_back(value as nat, 8 * l, rest);
    lemma_uint_bits_len(value as nat, 8 * l);
}

/// A normally-small integer reads back as written.
pub proof fn lemma_normally_small_round_trip(value: u64, rest: Seq<bool>)
    ensures
        dec_normally_small(enc_normally_small(value as nat) + rest) == Decoded::Value(
            value,
            enc_normally_small(value as nat).len(),
        ),
{
    lemma2_to64();
    let s = enc_normally_small(value as nat) + rest;
    if value <= 63 {
        assert(s.skip(1) =~= uint_bits(value as nat, 6) + rest);
        lemma_uint_read_back(value as nat, 6, rest);
        lemma_uint_bits_len(value as nat, 6);
    } else {
        assert(s.skip(1) =~= enc_int_max(value as nat) + rest);
        lemma_int_max_round_trip(value, rest);
    }
}

/// Values up to 63 take seven bits as normally-small integers; 64 takes
/// seventeen: the marker, a one-octet length and one octet.
pub proof fn lemma_normally_small_size(value: nat)
    ensures
        value <= 63 ==> enc_normally_small(value).len() == 7,
        value == 64 ==> enc_normally_small(value).len() == 17,
{
    lemma_uint_bits_len(value, 6);
    lemma_uint_bits_len(value, 8);
    lemma_uint_bits_len(1, 7);
    assert(octet_count(64) == 1);
}

/// An octet string whose length the encoding admits reads back as written.
pub proof fn lemma_octets_round_trip(b: Seq<u8>, range: Option<(i64, i64)>, rest: Seq<bool>)
    requires
        b.len() <= i64::MAX,
        b.len() <= usize::MAX,
        match range {
            Some(r) => r.0 <= b.len() <= r.1,
            None => b.len() <= 16383,
        },
    ensures
        dec_octets(enc_octets(b, range) + rest, range) == Decoded::Value(
            b,
            enc_octets(b, range).len(),
        ),
{
    let prefix = enc_octet_len(b.len(), range);
    let tail = bytes_bits(b) + rest;
    let s = enc_octets(b, range) + rest;
    assert(s =~= prefix + tail);
    match range {
        Some(r) => {
            lemma_int_round_trip(b.len() as i64, r.0, r.1, tail);
            lemma_int_width(b.len() as i64, r.0, r.1);
        },
        None => {
            lemma_length_round_trip(b.len() as usize, tail);
        },
    }
    assert(dec_octet_len(s, range) == Decoded::Value(b.len() as usize, prefix.len()));
    assert(s.skip(prefix.len() as int) =~= tail);
    assert(tail.take(8 * b.len() as int) =~= bytes_bits(b));
    lemma_pack_bytes_bits(b);
    assert(dec_bytes(tail, b.len()) == Decoded::Value(b, 8 * b.len()));
    assert((b.len() as usize) as nat == b.len());
    assert(dec_octets(s, range) == Decoded::Value(b, prefix.len() + 8 * b.len()));
    assert(enc_octets(b, range).len() == prefix.len() + 8 * b.len());
}

/// A UTF-8 string of at most 16383 bytes reads back as written.
pub proof fn lemma_utf8_round_trip(chars: Seq<char>, rest: Seq<bool>)
    requires
        encode_utf8(chars).len() <= 16383,
    ensures
        dec_utf8(enc_utf8(chars) + rest) == Decoded::Value(chars, enc_utf8(chars).len()),
{
    lemma_octets_round_trip(encode_utf8(chars), None, rest);
    encode_utf8_valid_utf8(chars);
    encode_utf8_decode_utf8(chars);
}

/// A choice index among `n` variants reads back as written.
pub proof fn lemma_choice_round_trip(index: u64, n: u64, rest: Seq<bool>)
    requires
        index < n <= i64::MAX,
    ensures
        dec_choice(enc_choice(index as nat, n as nat) + rest, n) == Decoded::Value(
            index,
            enc_choice(index as nat, n as nat).len(),
        ),
{
    lemma_int_round_trip(index as i64, 0, (n - 1) as i64, rest);
    lemma_int_width(index as i64, 0, (n - 1) as i64);
}

/// An extensible choice index reads back as written, root or extension.
pub proof fn lemma_choice_ext_round_trip(index: u64, n: u64, rest: Seq<bool>)
    requires
        1 <= n <= i64::MAX,
        index - n <= i64::MAX,
    ensures
        dec_choice_ext(enc_choice_ext(index as nat, n as nat) + rest, n) == Decoded::Value(
            index,
            enc_choice_ext(index as nat, n as nat).len(),
        ),
{
    let s = enc_choice_ext(index as nat, n as nat) + rest;
    if index >= n {
        assert(s.skip(1) =~= enc_normally_small((index - n) as nat) + rest);
        lemma_normally_small_round_trip((index - n) as u64, rest);
    } else {
        assert(s.skip(1) =~= enc_choice(index as nat, n as nat) + rest);
        lemma_choice_round_trip(index, n, rest);
    }
}

/// The octets of a buffer depend on its bits alone: writers that made the
/// same bits hold the same octets.
pub proof fn lemma_same_bits_same_octets(a: &BitBuffer, b: &BitBuffer)
    requires
        a.wf(),
        b.wf(),
        a.bits() == b.bits(),
    ensures
        a.bytes() == b.bytes(),
{
    BitBuffer::lemma_bytes_follow_bits(a, b);
}

/// Bits are laid out MSB first: a fresh buffer given all the bits of some
/// octets holds exactly those octets.
pub proof fn lemma_msb_first(w: &BitBuffer, b: Seq<u8>)
    requires
        w.wf(),
        w.bits() == Seq::<bool>::empty() + bytes_bits(b).subrange(0, 8 * b.len() as int),
    ensures
        w.bytes() == b,
{
    assert(w.bits() =~= bytes_bits(b));
    w.lemma_bytes_of_octets(b);
}

/// A reader built from a writer's octets and bit length has exactly the
/// writer's bits left to read; so a read that takes back what was written
/// leaves none over.
pub proof fn lemma_reader_of_writer(w: &BitBuffer, r: &BitBuffer)
    requires
        w.wf(),
        r.wf(),
        r.consumed() == 0,
        r.bits() == bytes_bits(w.bytes()).take(w.bits().len() as int),
    ensures
        r.unread() == w.bits(),
        w.bits().len() <= 8 * w.bytes().len(),
{
    w.lemma_bytes_hold_bits();
    assert(r.unread() =~= r.bits());
}

} // verus!
