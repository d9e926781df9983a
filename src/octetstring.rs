//! An octet string whose size constraint is carried by a type parameter.
use crate::error::Error;
use crate::reader::Reader;
use crate::writer::{room_for, Writer};
use crate::per::{dec_octets, enc_octets, outcome_view, taken};
use core::marker::PhantomData;
use vstd::prelude::*;

verus! {

/// Bounds on the number of octets of an octet string.
pub trait Constraint {
    /// The least size, if there is one.
    spec fn spec_min() -> Option<usize>;

    /// The greatest size, if there is one.
    spec fn spec_max() -> Option<usize>;

    fn min() -> (r: Option<usize>)
        ensures
            r == Self::spec_min(),
    ;

    fn max() -> (r: Option<usize>)
        ensures
            r == Self::spec_max(),
    ;
}

/// No bound on the size.
pub struct NoConstraint;

impl Constraint for NoConstraint {
    open spec fn spec_min() -> Option<usize> {
        None
    }

    open spec fn spec_max() -> Option<usize> {
        None
    }

    fn min() -> (r: Option<usize>) {
        None
    }

    fn max() -> (r: Option<usize>) {
        None
    }
}

/// The length range written for a constraint: none without bounds, else the
/// given bounds with 0 and `i64::MAX` for a missing one.
pub open spec fn size_range(min: Option<usize>, max: Option<usize>) -> Option<(i64, i64)> {
    if min is None && max is None {
        None
    } else {
        Some(
            (
                match min {
                    Some(m) => m as i64,
                    None => 0,
                },
                match max {
                    Some(m) => m as i64,
                    None => i64::MAX,
                },
            ),
        )
    }
}

fn range_of<C: Constraint>() -> (r: Option<(i64, i64)>)
    requires
        C::spec_min() is Some ==> C::spec_min()->Some_0 <= i64::MAX,
        C::spec_max() is Some ==> C::spec_max()->Some_0 <= i64::MAX,
    ensures
        r == size_range(C::spec_min(), C::spec_max()),
{
    let min = C::min();
    let max = C::max();
    if min.is_none() && max.is_none() {
        return None;
    }
    let lower = match min {
        Some(m) => m as i64,
        None => 0,
    };
    let upper = match max {
        Some(m) => m as i64,
        None => i64::MAX,
    };
    Some((lower, upper))
}

/// An octet string of size constraint `C`.
pub struct OctetString<C: Constraint>(PhantomData<C>);

impl<C: Constraint> OctetString<C> {
    /// Appends `value` with its length in the range of `C`.
    pub fn write_value<W: Writer>(writer: &mut W, value: &Vec<u8>) -> (r: Result<(), Error>)
        requires
            old(writer).writable(),
            value@.len() <= i64::MAX,
            room_for(old(writer).written(), 64 + 8 * value@.len()),
            C::spec_min() is Some ==> C::spec_min()->Some_0 <= i64::MAX,
            C::spec_max() is Some ==> C::spec_max()->Some_0 <= i64::MAX,
        ensures
            final(writer).writable(),
            r is Ok <==> match size_range(C::spec_min(), C::spec_max()) {
                Some(range) => range.0 <= value@.len() <= range.1,
                None => value@.len() <= 16383,
            },
            r is Ok ==> final(writer).written() == old(writer).written() + enc_octets(
                value@,
                size_range(C::spec_min(), C::spec_max()),
            ),
            r is Err ==> final(writer).written() == old(writer).written(),
    {
        let range = range_of::<C>();
        writer.write_octet_string(value.as_slice(), range)
    }

    /// Reads an octet string with its length in the range of `C`.
    pub fn read_value<R: Reader>(reader: &mut R) -> (r: Result<Vec<u8>, Error>)
        requires
            old(reader).readable(),
            C::spec_min() is Some ==> C::spec_min()->Some_0 <= i64::MAX,
            C::spec_max() is Some ==> C::spec_max()->Some_0 <= i64::MAX,
            C::spec_min() is Some && C::spec_max() is Some ==> C::spec_min()->Some_0
                <= C::spec_max()->Some_0,
        ensures
            final(reader).readable(),
            outcome_view(r, dec_octets(old(reader).unread(), size_range(C::spec_min(), C::spec_max()))),
            r is Ok ==> final(reader).unread() == old(reader).unread().skip(
                taken(dec_octets(old(reader).unread(), size_range(C::spec_min(), C::spec_max())))
                    as int,
            ),
    {
        let range = range_of::<C>();
        reader.read_octet_string(range)
    }
}

} // verus!
