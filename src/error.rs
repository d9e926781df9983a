//! The failures of the codec.
use vstd::prelude::*;

verus! {

/// What can go wrong while encoding or decoding.
#[derive(Debug, PartialOrd, PartialEq)]
pub enum Error {
    InvalidUtf8String,
    UnsupportedOperation(String),
    InsufficientSpaceInDestinationBuffer,
    InsufficientDataInSourceBuffer,
    InvalidChoiceIndex(usize, usize),
    ValueNotInRange(i64, i64, i64),
    SizeNotInRange(usize, usize, usize),
    OptFlagsExhausted,
    EndOfStream,
}

} // verus!
