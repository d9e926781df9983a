//! The wire format of each primitive, stated over bit strings: what a write
//! appends, and what a read makes of the unread bits.
use crate::bits::{bits_value, bytes_bits, lemma_bits_value_bound, octet_count, uint_bits, width};
use crate::error::Error;
use vstd::prelude::*;
use vstd::utf8::{decode_utf8, encode_utf8, valid_utf8};

verus! {

/// Largest length held by the one-octet length determinant.
pub const UPER_LENGTH_DET_L1: i64 = 127;

/// Largest length held by the two-octet length determinant.
pub const UPER_LENGTH_DET_L2: i64 = 16383;

/// Bits in an octet.
pub const BYTE_LEN: usize = 8;

/// What a read makes of a bit string: a value and the number of bits it
/// took, or the reason it stops.
pub enum Decoded<T> {
    Value(T, nat),
    Short,
    Unsupported,
    BadUtf8,
}

/// `r` is what an operation that decodes `d` returns.
pub open spec fn outcome<T>(r: Result<T, Error>, d: Decoded<T>) -> bool {
    match d {
        Decoded::Value(v, _) => r == Ok::<T, Error>(v),
        Decoded::Short => r == Err::<T, Error>(Error::EndOfStream),
        Decoded::Unsupported => r is Err && r->Err_0 is UnsupportedOperation,
        Decoded::BadUtf8 => r == Err::<T, Error>(Error::InvalidUtf8String),
    }
}

/// The same failure, for a decoding that failed.
pub open spec fn fail<T, U>(d: Decoded<T>) -> Decoded<U> {
    match d {
        Decoded::Short => Decoded::Short,
        Decoded::Unsupported => Decoded::Unsupported,
        _ => Decoded::BadUtf8,
    }
}

/// `d` with `n` more bits taken before it.
pub open spec fn after<T>(n: nat, d: Decoded<T>) -> Decoded<T> {
    match d {
        Decoded::Value(v, m) => Decoded::Value(v, n + m),
        _ => d,
    }
}

// ---- widths ----

/// Bits of a constrained integer in `[lo, hi]`.
pub open spec fn range_width(lo: int, hi: int) -> nat {
    width((hi - lo) as nat)
}

// ---- encodings ----

/// A constrained integer: the offset from `lo` in the width of the range.
pub open spec fn enc_int(v: int, lo: int, hi: int) -> Seq<bool> {
    uint_bits((v - lo) as nat, range_width(lo, hi))
}

/// A length determinant, one- or two-octet form.
pub open spec fn enc_length(l: nat) -> Seq<bool> {
    if l <= 127 {
        seq![false] + uint_bits(l, 7)
    } else {
        seq![true, false] + uint_bits(l, 14)
    }
}

/// An unconstrained non-negative integer: its octet count, then its octets.
pub open spec fn enc_int_max(v: nat) -> Seq<bool> {
    enc_length(octet_count(v)) + uint_bits(v, 8 * octet_count(v))
}

/// A normally-small non-negative integer.
pub open spec fn enc_normally_small(v: nat) -> Seq<bool> {
    if v <= 63 {
        seq![false] + uint_bits(v, 6)
    } else {
        seq![true] + enc_int_max(v)
    }
}

/// The octet string prefix: its length, constrained or as a determinant.
pub open spec fn enc_octet_len(n: nat, range: Option<(i64, i64)>) -> Seq<bool> {
    match range {
        Some(r) => enc_int(n as int, r.0 as int, r.1 as int),
        None => enc_length(n),
    }
}

/// An octet string: its length, then its octets.
pub open spec fn enc_octets(b: Seq<u8>, range: Option<(i64, i64)>) -> Seq<bool> {
    enc_octet_len(b.len(), range) + bytes_bits(b)
}

/// A UTF-8 string: its byte length, then its bytes.
pub open spec fn enc_utf8(s: Seq<char>) -> Seq<bool> {
    enc_octets(encode_utf8(s), None)
}

/// A choice index among `n` variants.
pub open spec fn enc_choice(i: nat, n: nat) -> Seq<bool> {
    enc_int(i as int, 0, n - 1)
}

/// A choice index with an extension marker, beyond `n` root variants.
pub open spec fn enc_choice_ext(i: nat, n: nat) -> Seq<bool> {
    if i >= n {
        seq![true] + enc_normally_small((i - n) as nat)
    } else {
        seq![false] + enc_choice(i, n)
    }
}

// ---- decodings ----

/// `w` bits as an unsigned value.
pub open spec fn dec_uint(s: Seq<bool>, w: nat) -> Decoded<nat> {
    if s.len() < w {
        Decoded::Short
    } else {
        Decoded::Value(bits_value(s.take(w as int)), w)
    }
}

/// A constrained integer in `[lo, hi]`, added to `lo` in 64-bit arithmetic.
pub open spec fn dec_int(s: Seq<bool>, lo: i64, hi: i64) -> Decoded<i64> {
    match dec_uint(s, range_width(lo as int, hi as int)) {
        Decoded::Value(v, n) => Decoded::Value((lo + v) as i64, n),
        d => fail(d),
    }
}

/// A length determinant.
pub open spec fn dec_length(s: Seq<bool>) -> Decoded<usize> {
    if s.len() == 0 {
        Decoded::Short
    } else if !s[0] {
        match dec_uint(s.skip(1), 7) {
            Decoded::Value(v, n) => Decoded::Value(v as usize, 1 + n),
            d => fail(d),
        }
    } else if s.len() == 1 {
        Decoded::Short
    } else if !s[1] {
        match dec_uint(s.skip(2), 14) {
            Decoded::Value(v, n) => Decoded::Value(v as usize, 2 + n),
            d => fail(d),
        }
    } else {
        Decoded::Unsupported
    }
}

/// A decoded length determinant is at most 16383.
pub proof fn lemma_dec_length_bound(s: Seq<bool>)
    ensures
        dec_length(s) is Value ==> dec_length(s)->Value_0 <= 16383,
{
    vstd::arithmetic::power2::lemma2_to64();
    if s.len() >= 8 {
        lemma_bits_value_bound(s.skip(1).take(7));
    }
    if s.len() >= 16 {
        lemma_bits_value_bound(s.skip(2).take(14));
    }
}

/// An unconstrained non-negative integer of at most eight octets.
pub open spec fn dec_int_max(s: Seq<bool>) -> Decoded<u64> {
    match dec_length(s) {
        Decoded::Value(l, n) => if l > 8 {
            Decoded::Unsupported
        } else {
            match dec_uint(s.skip(n as int), (8 * l) as nat) {
                Decoded::Value(v, m) => Decoded::Value(v as u64, n + m),
                d => fail(d),
            }
        },
        d => fail(d),
    }
}

/// A normally-small non-negative integer.
pub open spec fn dec_normally_small(s: Seq<bool>) -> Decoded<u64> {
    if s.len() == 0 {
        Decoded::Short
    } else if !s[0] {
        match dec_uint(s.skip(1), 6) {
            Decoded::Value(v, n) => Decoded::Value(v as u64, 1 + n),
            d => fail(d),
        }
    } else {
        after(1, dec_int_max(s.skip(1)))
    }
}

/// Octets from a bit string whose length is a multiple of eight.
pub open spec fn pack(s: Seq<bool>) -> Seq<u8> {
    Seq::new(s.len() / 8, |k: int| bits_value(s.subrange(8 * k, 8 * k + 8)) as u8)
}

/// `l` octets.
pub open spec fn dec_bytes(s: Seq<bool>, l: nat) -> Decoded<Seq<u8>> {
    if s.len() < 8 * l {
        Decoded::Short
    } else {
        Decoded::Value(pack(s.take(8 * l as int)), 8 * l)
    }
}

/// The length of an octet string.
pub open spec fn dec_octet_len(s: Seq<bool>, range: Option<(i64, i64)>) -> Decoded<usize> {
    match range {
        Some(r) => match dec_int(s, r.0, r.1) {
            Decoded::Value(v, n) => Decoded::Value(v as usize, n),
            d => fail(d),
        },
        None => dec_length(s),
    }
}

/// An octet string.
pub open spec fn dec_octets(s: Seq<bool>, range: Option<(i64, i64)>) -> Decoded<Seq<u8>> {
    match dec_octet_len(s, range) {
        Decoded::Value(l, n) => after(n, dec_bytes(s.skip(n as int), l as nat)),
        d => fail(d),
    }
}

/// A UTF-8 string.
pub open spec fn dec_utf8(s: Seq<bool>) -> Decoded<Seq<char>> {
    match dec_octets(s, None) {
        Decoded::Value(b, n) => if valid_utf8(b) {
            Decoded::Value(decode_utf8(b), n)
        } else {
            Decoded::BadUtf8
        },
        d => fail(d),
    }
}

/// A choice index among `n` variants.
pub open spec fn dec_choice(s: Seq<bool>, n: u64) -> Decoded<u64> {
    match dec_int(s, 0, (n - 1) as i64) {
        Decoded::Value(v, k) => Decoded::Value(v as u64, k),
        d => fail(d),
    }
}

/// A choice index with an extension marker, beyond `n` root variants.
pub open spec fn dec_choice_ext(s: Seq<bool>, n: u64) -> Decoded<u64> {
    if s.len() == 0 {
        Decoded::Short
    } else if s[0] {
        match dec_normally_small(s.skip(1)) {
            Decoded::Value(v, k) => Decoded::Value((v + n) as u64, 1 + k),
            d => fail(d),
        }
    } else {
        after(1, dec_choice(s.skip(1), n))
    }
}

/// Bits taken by a successful decoding.
pub open spec fn taken<T>(d: Decoded<T>) -> nat {
    match d {
        Decoded::Value(_, n) => n,
        _ => 0,
    }
}

/// `r` succeeds exactly when `d` does, and fails as `d` does.
pub open spec fn fails_as<T, U>(r: Result<T, Error>, d: Decoded<U>) -> bool {
    match d {
        Decoded::Value(_, _) => r is Ok,
        Decoded::Short => r is Err && r->Err_0 == Error::EndOfStream,
        Decoded::Unsupported => r is Err && r->Err_0 is UnsupportedOperation,
        Decoded::BadUtf8 => r is Err && r->Err_0 == Error::InvalidUtf8String,
    }
}

/// `r` is what an operation that decodes `d` returns, seen through its view.
pub open spec fn outcome_view<T: View>(r: Result<T, Error>, d: Decoded<T::V>) -> bool {
    &&& fails_as(r, d)
    &&& d is Value ==> r->Ok_0@ == d->Value_0
}

} // verus!
