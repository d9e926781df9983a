//! The mathematical model of bit strings: unsigned integers written MSB first,
//! and octets laid out in a stream MSB first.
use vstd::arithmetic::power2::{lemma2_to64, lemma_pow2_pos, lemma_pow2_unfold, pow2};
use vstd::arithmetic::div_mod::lemma_div_denominator;
use vstd::prelude::*;

verus! {

/// The `w` low bits of `v`, most significant first.
pub open spec fn uint_bits(v: nat, w: nat) -> Seq<bool>
    decreases w,
{
    if w == 0 {
        Seq::empty()
    } else {
        uint_bits(v / 2, (w - 1) as nat).push(v % 2 == 1)
    }
}

/// The unsigned value of a bit string read most significant bit first.
pub open spec fn bits_value(s: Seq<bool>) -> nat
    decreases s.len(),
{
    if s.len() == 0 {
        0
    } else {
        2 * bits_value(s.drop_last()) + if s.last() { 1nat } else { 0nat }
    }
}

/// Bit `j` (0 is the most significant) of an octet.
pub open spec fn byte_bit(b: u8, j: int) -> bool {
    ((b >> ((7 - j) as u8)) & 1u8) == 1u8
}

/// The bits of a byte sequence, octet after octet, each MSB first.
pub open spec fn bytes_bits(b: Seq<u8>) -> Seq<bool> {
    Seq::new(8 * b.len(), |i: int| byte_bit(b[i / 8], i % 8))
}

/// Number of bits needed to hold `d`: the least `w` with `d < 2^w`.
pub open spec fn width(d: nat) -> nat
    decreases d,
{
    if d == 0 {
        0
    } else {
        1 + width(d / 2)
    }
}

pub proof fn lemma_uint_bits_len(v: nat, w: nat)
    ensures
        uint_bits(v, w).len() == w,
    decreases w,
{
    if w > 0 {
        lemma_uint_bits_len(v / 2, (w - 1) as nat);
    }
}

pub proof fn lemma_bits_value_bound(s: Seq<bool>)
    ensures
        bits_value(s) < pow2(s.len()),
    decreases s.len(),
{
    if s.len() > 0 {
        lemma_bits_value_bound(s.drop_last());
        lemma_pow2_unfold(s.len());
    } else {
        lemma_pow2_pos(0);
        vstd::arithmetic::power2::lemma2_to64();
    }
}

/// Reading back `w` bits written from `v` gives `v` when it fits.
pub proof fn lemma_uint_round_trip(v: nat, w: nat)
    requires
        v < pow2(w),
    ensures
        bits_value(uint_bits(v, w)) == v,
    decreases w,
{
    if w == 0 {
        vstd::arithmetic::power2::lemma2_to64();
    } else {
        lemma_pow2_unfold(w);
        lemma_uint_round_trip(v / 2, (w - 1) as nat);
        assert(uint_bits(v, w).drop_last() == uint_bits(v / 2, (w - 1) as nat));
    }
}

/// The width of `d` is the least number of bits that holds it.
pub proof fn lemma_width_minimal(d: nat)
    ensures
        d < pow2(width(d)),
        width(d) > 0 ==> pow2((width(d) - 1) as nat) <= d,
    decreases d,
{
    if d == 0 {
        vstd::arithmetic::power2::lemma2_to64();
    } else {
        lemma_width_minimal(d / 2);
        lemma_pow2_unfold(width(d));
        if width(d / 2) > 0 {
            lemma_pow2_unfold(width(d / 2));
        } else {
            vstd::arithmetic::power2::lemma2_to64();
        }
    }
}

/// The width of a 64-bit value is 64 less its leading zero bits.
pub proof fn lemma_width_leading_zeros(x: u64)
    ensures
        width(x as nat) == 64 - vstd::std_specs::bits::u64_leading_zeros(x),
        width(x as nat) <= 64,
    decreases x,
{
    reveal(vstd::std_specs::bits::u64_leading_zeros);
    if x != 0 {
        lemma_width_leading_zeros(x / 2);
    }
}

pub proof fn lemma_width_127_16383()
    ensures
        width(127) == 7,
        width(16383) == 14,
{
    reveal_with_fuel(width, 15);
}

/// The least number of octets, at least one, that hold `v`.
pub open spec fn octet_count(v: nat) -> nat
    decreases v,
{
    if v < 256 {
        1
    } else {
        1 + octet_count(v / 256)
    }
}

pub proof fn lemma_octet_count(v: nat)
    ensures
        octet_count(v) >= 1,
        v < pow2(8 * octet_count(v)),
        octet_count(v) > 1 ==> pow2((8 * (octet_count(v) - 1)) as nat) <= v,
    decreases v,
{
    vstd::arithmetic::power2::lemma2_to64();
    if v >= 256 {
        lemma_octet_count(v / 256);
        let k = octet_count(v / 256);
        vstd::arithmetic::power2::lemma_pow2_adds(8, 8 * k);
        assert(8 * octet_count(v) == 8 + 8 * k);
        if k > 1 {
            vstd::arithmetic::power2::lemma_pow2_adds(8, (8 * (k - 1)) as nat);
            assert((8 * (octet_count(v) - 1)) as nat == 8 + (8 * (k - 1)) as nat);
        }
    }
}

/// A 64-bit value takes at most eight octets.
pub proof fn lemma_octet_count_u64(v: u64)
    ensures
        1 <= octet_count(v as nat) <= 8,
        (v as nat) < pow2(8 * octet_count(v as nat)),
{
    lemma_octet_count(v as nat);
    vstd::arithmetic::power2::lemma2_to64();
    vstd::arithmetic::power2::lemma2_to64_rest();
    if octet_count(v as nat) > 8 {
        vstd::arithmetic::power2::lemma_pow2_strictly_increases(
            64,
            (8 * (octet_count(v as nat) - 1)) as nat,
        );
        if octet_count(v as nat) == 9 {
        }
    }
}

/// Bit `i` of the `w`-bit form of `v` is bit `w - 1 - i` of `v`.
pub proof fn lemma_uint_bits_index(v: nat, w: nat, i: int)
    requires
        0 <= i < w,
    ensures
        uint_bits(v, w)[i] == ((v / pow2((w - 1 - i) as nat)) % 2 == 1),
    decreases w,
{
    lemma_uint_bits_len(v / 2, (w - 1) as nat);
    if i == w - 1 {
        lemma2_to64();
    } else {
        lemma_uint_bits_index(v / 2, (w - 1) as nat, i);
        let k = (w - 2 - i) as nat;
        lemma_pow2_pos(k);
        lemma_pow2_unfold(k + 1);
        lemma_div_denominator(v as int, 2, pow2(k) as int);
        assert((k + 1) as nat == (w - 1 - i) as nat);
    }
}

} // verus!
