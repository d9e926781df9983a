use asn1rs::buffer::BitBuffer;
use asn1rs::error::Error;
use asn1rs::reader::Reader;
use asn1rs::writer::Writer;

fn reader_of(writer: &BitBuffer) -> BitBuffer {
    BitBuffer::from_bits(writer.content(), writer.bit_len())
}

#[test]
fn test_serialize_with_uper() {
    let mut uper = BitBuffer::new();
    uper.write_int_max(123).unwrap();
    uper.write_int_max(1234).unwrap();
    uper.write_int(128, (12, 128)).unwrap();
    uper.write_utf8_string("where is the content").unwrap();
    assert_eq!(
        vec![
            0x01, 0x7B, 0x02, 0x04, 0xD2, 0xE8, 0x28, 0xEE, 0xD0, 0xCA, 0xE4, 0xCA, 0x40, 0xD2,
            0xE6, 0x40, 0xE8, 0xD0, 0xCA, 0x40, 0xC6, 0xDE, 0xDC, 0xE8, 0xCA, 0xDC, 0xE8
        ],
        uper.content()
    );
    assert_eq!(26 * 8 + 7, uper.bit_len());
}

#[test]
fn test_deserialize_with_uper() {
    let mut uper = BitBuffer::from_bits(
        vec![
            0x01, 0x7B, 0x02, 0x04, 0xD2, 0xE8, 0x28, 0xEE, 0xD0, 0xCA, 0xE4, 0xCA, 0x40, 0xD2,
            0xE6, 0x40, 0xE8, 0xD0, 0xCA, 0x40, 0xC6, 0xDE, 0xDC, 0xE8, 0xCA, 0xDC, 0xE8,
        ],
        26 * 8 + 7,
    );
    assert_eq!(Ok(123), uper.read_int_max());
    assert_eq!(Ok(1234), uper.read_int_max());
    assert_eq!(Ok(128), uper.read_int((12, 128)));
    assert_eq!(Ok(String::from("where is the content")), uper.read_utf8_string());
    assert_eq!(0, uper.bits_remaining());
}

#[test]
fn constrained_int_one_to_four() {
    let mut w = BitBuffer::new();
    w.write_int(2, (1, 4)).unwrap();
    assert_eq!(vec![0x40], w.content());
    assert_eq!(2, w.bit_len());
}

#[test]
fn constrained_int_single_value_takes_no_bits() {
    let mut w = BitBuffer::new();
    w.write_int(7, (7, 7)).unwrap();
    assert_eq!(0, w.bit_len());
    let mut r = reader_of(&w);
    assert_eq!(Ok(7), r.read_int((7, 7)));
}

#[test]
fn constrained_int_width_is_minimal() {
    for (lower, upper, bits) in [(0i64, 1i64, 1usize), (0, 2, 2), (0, 3, 2), (0, 4, 3), (-5, 250, 8), (0, 256, 9)] {
        let mut w = BitBuffer::new();
        w.write_int(lower, (lower, upper)).unwrap();
        assert_eq!(bits, w.bit_len());
    }
    let mut w = BitBuffer::new();
    w.write_int(i64::MIN, (i64::MIN, i64::MAX)).unwrap();
    assert_eq!(64, w.bit_len());
}

#[test]
fn constrained_int_out_of_range() {
    let mut w = BitBuffer::new();
    assert_eq!(Err(Error::ValueNotInRange(5, 1, 4)), w.write_int(5, (1, 4)));
    assert_eq!(Err(Error::ValueNotInRange(0, 1, 4)), w.write_int(0, (1, 4)));
    assert_eq!(0, w.bit_len());
}

#[test]
fn constrained_int_round_trip_full_range() {
    let mut w = BitBuffer::new();
    for v in [i64::MIN, -1, 0, 1, i64::MAX] {
        w.write_int(v, (i64::MIN, i64::MAX)).unwrap();
    }
    w.write_int(-3, (-10, -2)).unwrap();
    let mut r = reader_of(&w);
    for v in [i64::MIN, -1, 0, 1, i64::MAX] {
        assert_eq!(Ok(v), r.read_int((i64::MIN, i64::MAX)));
    }
    assert_eq!(Ok(-3), r.read_int((-10, -2)));
    assert_eq!(0, r.bits_remaining());
}

#[test]
fn length_determinant_127() {
    let mut w = BitBuffer::new();
    w.write_length_determinant(127).unwrap();
    assert_eq!(vec![0x7F], w.content());
    assert_eq!(8, w.bit_len());
}

#[test]
fn length_determinant_128() {
    let mut w = BitBuffer::new();
    w.write_length_determinant(128).unwrap();
    assert_eq!(vec![0x80, 0x80], w.content());
    assert_eq!(16, w.bit_len());
}

#[test]
fn length_determinant_boundaries() {
    for (len, bits) in [(0usize, 8usize), (1, 8), (127, 8), (128, 16), (16383, 16)] {
        let mut w = BitBuffer::new();
        w.write_length_determinant(len).unwrap();
        assert_eq!(bits, w.bit_len());
        let mut r = reader_of(&w);
        assert_eq!(Ok(len), r.read_length_determinant());
        assert_eq!(0, r.bits_remaining());
    }
    let mut w = BitBuffer::new();
    assert!(matches!(w.write_length_determinant(16384), Err(Error::UnsupportedOperation(_))));
    assert_eq!(0, w.bit_len());
}

#[test]
fn length_determinant_long_form_is_unsupported() {
    let mut r = BitBuffer::from_bits(vec![0xC0, 0x00], 16);
    assert!(matches!(r.read_length_determinant(), Err(Error::UnsupportedOperation(_))));
}

#[test]
fn normally_small_zero() {
    let mut w = BitBuffer::new();
    w.write_int_normally_small(0).unwrap();
    assert_eq!(vec![0x00], w.content());
    assert_eq!(7, w.bit_len());
}

#[test]
fn normally_small_sixty_four() {
    let mut w = BitBuffer::new();
    w.write_int_normally_small(64).unwrap();
    assert_eq!(17, w.bit_len());
    assert_eq!(vec![0x80, 0xA0, 0x00], w.content());
}

#[test]
fn normally_small_boundaries_round_trip() {
    let values = [0u64, 1, 63, 64, 255, 256, 65535, 1 << 40, i64::MAX as u64];
    let mut w = BitBuffer::new();
    for v in values {
        w.write_int_normally_small(v).unwrap();
    }
    let mut r = reader_of(&w);
    for v in values {
        assert_eq!(Ok(v), r.read_int_normally_small());
    }
    assert_eq!(0, r.bits_remaining());
    let mut w = BitBuffer::new();
    w.write_int_normally_small(63).unwrap();
    assert_eq!(7, w.bit_len());
}

#[test]
fn int_max_octets() {
    let mut w = BitBuffer::new();
    w.write_int_max(0).unwrap();
    assert_eq!(vec![0x01, 0x00], w.content());
    let mut w = BitBuffer::new();
    w.write_int_max(256).unwrap();
    assert_eq!(vec![0x02, 0x01, 0x00], w.content());
    assert_eq!(24, w.bit_len());
}

#[test]
fn int_max_too_large() {
    let mut w = BitBuffer::new();
    assert_eq!(
        Err(Error::ValueNotInRange(-1, 0, i64::MAX)),
        w.write_int_max(u64::MAX)
    );
    assert_eq!(0, w.bit_len());
    assert!(w.write_int_normally_small(u64::MAX).is_err());
    assert_eq!(0, w.bit_len());
}

#[test]
fn int_max_more_than_eight_octets_is_unsupported() {
    let mut r = BitBuffer::from_bits(vec![0x09, 0, 0, 0, 0, 0, 0, 0, 0, 0], 80);
    assert!(matches!(r.read_int_max(), Err(Error::UnsupportedOperation(_))));
}

#[test]
fn utf8_string_where_is_the_content() {
    let mut w = BitBuffer::new();
    w.write_utf8_string("where is the content").unwrap();
    assert_eq!(168, w.bit_len());
    let mut expected = vec![20u8];
    expected.extend_from_slice("where is the content".as_bytes());
    assert_eq!(expected, w.content());
    let mut r = reader_of(&w);
    assert_eq!(Ok(String::from("where is the content")), r.read_utf8_string());
    assert_eq!(0, r.bits_remaining());
}

#[test]
fn utf8_string_multibyte_round_trip() {
    let mut w = BitBuffer::new();
    w.write_bit(true).unwrap();
    w.write_utf8_string("grüße, 世界").unwrap();
    let mut r = reader_of(&w);
    assert_eq!(Ok(true), r.read_bit());
    assert_eq!(Ok(String::from("grüße, 世界")), r.read_utf8_string());
    assert_eq!(0, r.bits_remaining());
}

#[test]
fn utf8_string_invalid() {
    let mut r = BitBuffer::from_bits(vec![0x02, 0xC3, 0x28], 24);
    assert_eq!(Err(Error::InvalidUtf8String), r.read_utf8_string());
}

#[test]
fn octet_string_unbounded() {
    let mut w = BitBuffer::new();
    w.write_octet_string(&[0x13, 0x37], None).unwrap();
    assert_eq!(vec![0x02, 0x13, 0x37], w.content());
    assert_eq!(24, w.bit_len());
    let mut r = reader_of(&w);
    assert_eq!(Ok(vec![0x13, 0x37]), r.read_octet_string(None));
    assert_eq!(0, r.bits_remaining());
}

#[test]
fn octet_string_bounded() {
    let mut w = BitBuffer::new();
    w.write_octet_string(&[0xAB], Some((1, 4))).unwrap();
    assert_eq!(10, w.bit_len());
    assert_eq!(vec![0x2A, 0xC0], w.content());
    let mut r = reader_of(&w);
    assert_eq!(Ok(vec![0xAB]), r.read_octet_string(Some((1, 4))));
    assert_eq!(0, r.bits_remaining());
    let mut w = BitBuffer::new();
    assert_eq!(
        Err(Error::ValueNotInRange(5, 1, 4)),
        w.write_octet_string(&[0; 5], Some((1, 4)))
    );
    assert_eq!(0, w.bit_len());
}

#[test]
fn octet_string_runs_out() {
    let mut r = BitBuffer::from_bits(vec![0x03, 0x01], 16);
    assert_eq!(Err(Error::EndOfStream), r.read_octet_string(None));
}

#[test]
fn choice_index_plain() {
    let mut w = BitBuffer::new();
    w.write_choice_index(1, 2).unwrap();
    assert_eq!(vec![0x80], w.content());
    assert_eq!(1, w.bit_len());
    let mut r = reader_of(&w);
    assert_eq!(Ok(1), r.read_choice_index(2));
    assert_eq!(0, r.bits_remaining());
    assert_eq!(Err(Error::ValueNotInRange(2, 0, 1)), w.write_choice_index(2, 2));
}

#[test]
fn enumerated_three_variants() {
    let mut w = BitBuffer::new();
    for i in 0..3 {
        w.write_choice_index(i, 3).unwrap();
    }
    assert_eq!(6, w.bit_len());
    assert_eq!(0x18, w.content()[0]);
    let mut r = reader_of(&w);
    for i in 0..3 {
        assert_eq!(Ok(i), r.read_choice_index(3));
    }
    assert_eq!(0, r.bits_remaining());
}

#[test]
fn choice_index_extensible() {
    let mut w = BitBuffer::new();
    w.write_choice_index_extensible(1, 3).unwrap();
    assert_eq!(3, w.bit_len());
    w.write_choice_index_extensible(5, 3).unwrap();
    assert_eq!(3 + 1 + 7, w.bit_len());
    let mut r = reader_of(&w);
    assert_eq!(Ok(1), r.read_choice_index_extensible(3));
    assert_eq!(Ok(5), r.read_choice_index_extensible(3));
    assert_eq!(0, r.bits_remaining());
    // root index 1 of 3: 0 01; extension offset 2: 1 0 000010
    assert_eq!(vec![0x30, 0x40], w.content());
}

#[test]
fn substring_with_prefix() {
    let mut inner = BitBuffer::new();
    inner.write_int(5, (0, 7)).unwrap();
    let mut w = BitBuffer::new();
    w.write_substring_with_length_determinant_prefix(&inner).unwrap();
    assert_eq!(vec![0x01, 0xA0], w.content());
    assert_eq!(16, w.bit_len());
    let mut r = reader_of(&w);
    let mut sub = r.read_substring_with_length_determinant_prefix().unwrap();
    assert_eq!(0, r.bits_remaining());
    assert_eq!(8, sub.bit_len());
    assert_eq!(Ok(5), sub.read_int((0, 7)));
}

#[test]
fn bit_string_msb_first() {
    let bytes = [0x13u8, 0x37, 0xFF, 0x00, 0x81];
    let mut w = BitBuffer::new();
    w.write_bit_string(&bytes, 0, 8 * bytes.len()).unwrap();
    assert_eq!(bytes.to_vec(), w.content());
    assert_eq!(40, w.bit_len());
}

#[test]
fn bit_string_window_round_trip() {
    let mut w = BitBuffer::new();
    w.write_bit_string(&[0b1011_0110, 0b0100_0000], 2, 7).unwrap();
    assert_eq!(7, w.bit_len());
    assert_eq!(vec![0b1101_1000], w.content());
    let mut r = reader_of(&w);
    let mut dst = [0xFFu8, 0xFF];
    r.read_bit_string(&mut dst, 3, 7).unwrap();
    assert_eq!([0b1111_1011, 0b0011_1111], dst);
    assert_eq!(0, r.bits_remaining());
}

#[test]
fn bit_string_bounds() {
    let mut w = BitBuffer::new();
    assert_eq!(Err(Error::InsufficientDataInSourceBuffer), w.write_bit_string(&[0], 4, 5));
    assert_eq!(Err(Error::InsufficientDataInSourceBuffer), w.write_bit_string_till_end(&[0], 9));
    w.write_bit_string_till_end(&[0xF0], 2).unwrap();
    assert_eq!(vec![0xC0], w.content());
    assert_eq!(6, w.bit_len());
    let mut r = reader_of(&w);
    let mut dst = [0u8];
    assert_eq!(Err(Error::InsufficientSpaceInDestinationBuffer), r.read_bit_string(&mut dst, 4, 5));
    assert_eq!(Err(Error::InsufficientSpaceInDestinationBuffer), r.read_bit_string_till_end(&mut dst, 9));
    r.read_bit_string_till_end(&mut dst, 2).unwrap();
    assert_eq!([0x30], dst);
    assert_eq!(Err(Error::EndOfStream), r.read_bit_string_till_end(&mut dst, 0));
}

#[test]
fn read_past_end() {
    let mut r = BitBuffer::new();
    assert_eq!(Err(Error::EndOfStream), r.read_bit());
    let mut r = BitBuffer::from_bits(vec![0xFF], 3);
    assert_eq!(Err(Error::EndOfStream), r.read_int((0, 15)));
}

#[test]
fn independent_writers_agree() {
    let write = |w: &mut BitBuffer| {
        w.write_bit(true).unwrap();
        w.write_int(-2, (-4, 3)).unwrap();
        w.write_utf8_string("ab").unwrap();
        w.write_int_normally_small(100).unwrap();
    };
    let mut a = BitBuffer::new();
    let mut b = BitBuffer::new();
    write(&mut a);
    write(&mut b);
    assert_eq!(a.bit_len(), b.bit_len());
    assert_eq!(a.content(), b.content());
}

#[test]
fn views_do_not_move_cursors() {
    let mut w = BitBuffer::new();
    w.write_int(9, (0, 15)).unwrap();
    let first = w.content();
    assert_eq!(first, w.content());
    assert_eq!(w.bit_len(), w.bit_len());
    assert_eq!(4, w.bit_len());
    assert_eq!(4, w.bits_remaining());
    assert_eq!(1, w.byte_len());
    assert_eq!(Ok(9), w.read_int((0, 15)));
    assert_eq!(0, w.bits_remaining());
}

#[test]
fn default_buffer_is_empty() {
    let b = BitBuffer::default();
    assert_eq!(0, b.bit_len());
    assert_eq!(Vec::<u8>::new(), b.content());
}

#[test]
fn from_bits_drops_trailing_bits() {
    let mut r = BitBuffer::from_bits(vec![0xFF, 0xFF], 9);
    assert_eq!(vec![0xFF, 0x80], r.content());
    r.write_bit(false).unwrap();
    assert_eq!(vec![0xFF, 0x80], r.content());
    assert_eq!(10, r.bit_len());
}

#[test]
fn unsigned_bit_runs() {
    let mut w = BitBuffer::new();
    w.write_uint(0b101, 3);
    w.write_uint(u64::MAX, 64);
    w.write_uint(0xFF, 0);
    assert_eq!(67, w.bit_len());
    let mut r = reader_of(&w);
    assert_eq!(Ok(0b101), r.read_uint(3));
    assert_eq!(Ok(u64::MAX), r.read_uint(64));
    assert_eq!(Ok(0), r.read_uint(0));
    assert_eq!(Err(Error::EndOfStream), r.read_uint(1));
}
