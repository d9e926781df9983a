//! An unaligned packed encoding rules (UPER) codec: a bit buffer with read
//! and write cursors, and the primitive encodings built on single bits.
pub mod bits;
pub mod buffer;
pub mod error;
pub mod laws;
pub mod octetstring;
pub mod optional;
pub mod per;
pub mod reader;
pub mod sql;
pub mod trace;
pub mod writer;
