//! The presence bitmap that precedes the fields of a sequence with optional
//! fields: one bit per optional field, in declaration order.
use crate::error::Error;
use crate::reader::Reader;
use crate::writer::{room_for, Writer};
use vstd::prelude::*;

verus! {

/// Counts the presence bits of a sequence still to be written or read.
pub struct OptionalFlags {
    remaining: usize,
}

impl OptionalFlags {
    /// Presence bits still owed.
    pub closed spec fn remaining(&self) -> nat {
        self.remaining as nat
    }

    /// The bitmap of a sequence with `count` optional fields.
    pub fn new(count: usize) -> (r: OptionalFlags)
        ensures
            r.remaining() == count,
    {
        OptionalFlags { remaining: count }
    }

    /// Presence bits still owed.
    pub fn remaining_flags(&self) -> (r: usize)
        ensures
            r == self.remaining(),
    {
        self.remaining
    }

    /// Writes whether the next optional field is present.
    pub fn write_flag<W: Writer>(&mut self, writer: &mut W, present: bool) -> (r: Result<(), Error>)
        requires
            old(writer).writable(),
            room_for(old(writer).written(), 1),
        ensures
            final(writer).writable(),
            old(self).remaining() == 0 ==> r == Err::<(), Error>(Error::OptFlagsExhausted)
                && final(self).remaining() == 0 && final(writer).written() == old(writer).written(),
            old(self).remaining() > 0 ==> r is Ok && final(self).remaining() == old(self).remaining()
                - 1 && final(writer).written() == old(writer).written().push(present),
    {
        if self.remaining == 0 {
            return Err(Error::OptFlagsExhausted);
        }
        self.remaining = self.remaining - 1;
        writer.write_bit(present)
    }

    /// Reads whether the next optional field is present.
    pub fn read_flag<R: Reader>(&mut self, reader: &mut R) -> (r: Result<bool, Error>)
        requires
            old(reader).readable(),
        ensures
            final(reader).readable(),
            old(self).remaining() == 0 ==> r == Err::<bool, Error>(Error::OptFlagsExhausted)
                && final(self).remaining() == 0 && final(reader).unread() == old(reader).unread(),
            old(self).remaining() > 0 && old(reader).unread().len() == 0 ==> r == Err::<
                bool,
                Error,
            >(Error::EndOfStream),
            old(self).remaining() > 0 && old(reader).unread().len() > 0 ==> r == Ok::<
                bool,
                Error,
            >(old(reader).unread()[0]) && final(self).remaining() == old(self).remaining() - 1
                && final(reader).unread() == old(reader).unread().skip(1),
    {
        if self.remaining == 0 {
            return Err(Error::OptFlagsExhausted);
        }
        let r = reader.read_bit();
        if r.is_ok() {
            self.remaining = self.remaining - 1;
        }
        r
    }
}

} // verus!
