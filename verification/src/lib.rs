//! Storage and codec core for an inverted-index segment.
//!
//! The crate compresses per-term posting lists (document id, content-term
//! frequency, title-term frequency) with delta + variable-length integer
//! encoding, lays many terms out into a single binary block image that
//! supports both sequential iteration and offset-based random access, and
//! merges several encoded posting lists into one.
//!
//! All functions here work on in-memory byte vectors; opening files and
//! moving bytes to and from disk is left to the embedding program.

use vstd::prelude::*;

pub mod block;
pub mod merge;
pub mod postings;
pub mod stream;
pub mod varint;

verus! {

/// The failures the codec core can report.
///
/// End of input where a new entry's length prefix would start is not an
/// error; the block reader reports it as "no more entries" instead.
#[derive(Clone, Copy, Debug, PartialEq, Eq, Structural)]
pub enum CodecError {
    /// A varint ran past its ten-byte limit or the input ended mid-varint.
    MalformedVarint,
    /// Term bytes inside a block were not valid UTF-8.
    Utf8DecodeError,
    /// The input ended inside an entry where more bytes were declared.
    IoError,
    /// The writer was handed parallel arrays of differing lengths.
    LengthMismatch,
}

} // verus!
