use asn1rs::buffer::BitBuffer;
use asn1rs::error::Error;
use asn1rs::reader::Reader;
use asn1rs::writer::Writer;
use asn1rs::octetstring::{Constraint, NoConstraint, OctetString};
use asn1rs::optional::OptionalFlags;
use asn1rs::trace::TraceWriter;

#[test]
fn optional_flags_are_counted() {
    let mut w = BitBuffer::new();
    let mut flags = OptionalFlags::new(2);
    flags.write_flag(&mut w, true).unwrap();
    flags.write_flag(&mut w, false).unwrap();
    assert_eq!(0, flags.remaining_flags());
    assert_eq!(Err(Error::OptFlagsExhausted), flags.write_flag(&mut w, true));
    assert_eq!(2, w.bit_len());
    assert_eq!(vec![0x80], w.content());

    let mut r = BitBuffer::from_bits(w.content(), w.bit_len());
    let mut flags = OptionalFlags::new(2);
    assert_eq!(Ok(true), flags.read_flag(&mut r));
    assert_eq!(Ok(false), flags.read_flag(&mut r));
    assert_eq!(Err(Error::OptFlagsExhausted), flags.read_flag(&mut r));
    assert_eq!(0, r.bits_remaining());
}

#[test]
fn optional_flag_past_end_of_stream() {
    let mut r = BitBuffer::new();
    let mut flags = OptionalFlags::new(1);
    assert_eq!(Err(Error::EndOfStream), flags.read_flag(&mut r));
    assert_eq!(1, flags.remaining_flags());
}

#[test]
fn unconstrained_octet_string_value() {
    assert_eq!(None, NoConstraint::min());
    assert_eq!(None, NoConstraint::max());
    let mut w = BitBuffer::new();
    OctetString::<NoConstraint>::write_value(&mut w, &vec![0x13, 0x37]).unwrap();
    assert_eq!(vec![0x02, 0x13, 0x37], w.content());
    let mut r = BitBuffer::from_bits(w.content(), w.bit_len());
    assert_eq!(Ok(vec![0x13, 0x37]), OctetString::<NoConstraint>::read_value(&mut r));
    assert_eq!(0, r.bits_remaining());
}

#[test]
fn trace_writer_shows_the_bits() {
    let mut t = TraceWriter::new();
    t.write_int(2, (1, 4)).unwrap();
    assert_eq!("01", t.trace());
    t.write_int_normally_small(64).unwrap();
    assert_eq!("01".to_owned() + "1" + "00000001" + "01000000", t.trace());
    let mut t = TraceWriter::new();
    for i in 0..3 {
        t.write_choice_index(i, 3).unwrap();
    }
    assert_eq!("000110", t.trace());
    assert_eq!(Err(Error::ValueNotInRange(3, 0, 2)), t.write_choice_index(3, 3));
    assert_eq!("000110", t.trace());
}
