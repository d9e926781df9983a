//! A diagnostic writer: it takes every encoding that a buffer takes, and
//! records the bits as readable text instead of packing them.
use crate::error::Error;
use crate::writer::Writer;
use vstd::prelude::*;
use vstd::string::StringExecFns;

verus! {

/// The character that shows a bit.
pub open spec fn bit_char(b: bool) -> char {
    if b {
        '1'
    } else {
        '0'
    }
}

/// Records written bits as the characters `0` and `1`.
pub struct TraceWriter {
    text: String,
}

impl TraceWriter {
    /// The recorded text.
    pub closed spec fn text(&self) -> Seq<char> {
        self.text@
    }

    /// A writer that has recorded nothing.
    pub fn new() -> (r: TraceWriter)
        ensures
            r.writable(),
            r.written() == Seq::<bool>::empty(),
    {
        let r = TraceWriter { text: String::new() };
        assert(r.written() =~= Seq::<bool>::empty());
        r
    }

    /// The bits written so far, one character each.
    pub fn trace(&self) -> (r: String)
        requires
            self.writable(),
        ensures
            r@ == Seq::new(self.written().len(), |i: int| bit_char(self.written()[i])),
    {
        let r = self.text.clone();
        assert(r@ =~= Seq::new(self.written().len(), |i: int| bit_char(self.written()[i])));
        r
    }
}

impl Writer for TraceWriter {
    open spec fn written(&self) -> Seq<bool> {
        Seq::new(self.text().len(), |i: int| self.text()[i] == '1')
    }

    open spec fn writable(&self) -> bool {
        forall|i: int| 0 <= i < self.text().len() ==> self.text()[i] == '0' || self.text()[i] == '1'
    }

    fn write_bit(&mut self, bit: bool) -> (r: Result<(), Error>) {
        proof {
            reveal_strlit("1");
            reveal_strlit("0");
        }
        if bit {
            self.text.append("1");
        } else {
            self.text.append("0");
        }
        assert(self.written() =~= old(self).written().push(bit));
        Ok(())
    }
}

} // verus!
